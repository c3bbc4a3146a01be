//! A table-driven recursive-descent parser.
//!
//! A grammar is a table from rule names to alternatives, each alternative a
//! sequence of rules, each rule the name of another rule or a terminal
//! matcher. `Parser::parse` matches an input against a start rule and hands
//! back the tree of what it matched.
//!
//! What a parse yields is defined in `semantics`, as mathematical functions
//! of the table and the input; `parser` holds the engine that computes it,
//! `primitives` the matchers that come with the library, and `laws`,
//! `remainder`, `whitespace` and `spacing` what is proved of every parse.
//! Offsets count characters.

pub mod grammar;
pub mod laws;
pub mod node;
pub mod parser;
pub mod primitives;
pub mod remainder;
pub mod scan;
pub mod semantics;
pub mod spacing;
pub mod whitespace;

pub use grammar::{AlternativeRules, ParseKey, PrintableCallback, Rule, RuleSet, TerminalRule};
pub use node::Node;
pub use parser::Parser;
pub use semantics::ParseError;
