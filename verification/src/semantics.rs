//! What a parse yields, as mathematical functions of the grammar table and
//! the input. The engine is proved to compute exactly these.
//!
//! A rule resolves to the first of its alternatives that matches. An
//! alternative matches when each of its rules matches in turn, whitespace
//! being skipped before each. Resolving a rule spends one unit of depth, so
//! that a grammar that refers to itself without end is cut off.

use crate::grammar::{Grammar, RuleView};
use crate::node::NodeView;
use crate::scan::skip_whitespace;
use vstd::prelude::*;

verus! {

/// Why a parse gave no tree.
#[derive(Clone, Copy, Debug, PartialEq, Eq)]
pub enum ParseError {
    /// The input is empty or holds whitespace only.
    EmptyInput,
    /// A tree was matched, but the input goes on behind it, from the offset
    /// given.
    TrailingCharacters(usize),
    /// No alternative of the start rule matches the input.
    NoRuleMatched,
    /// The parse reached a rule name that the table does not define. The
    /// table is at fault, not the input.
    UndefinedRule,
    /// Rules were nested deeper than the parser allows.
    DepthExceeded,
}

/// The mathematical value of a `ParseError`: its offset is a number of any
/// size.
pub enum Failure {
    EmptyInput,
    TrailingCharacters(nat),
    NoRuleMatched,
    UndefinedRule,
    DepthExceeded,
}

impl View for ParseError {
    type V = Failure;

    open spec fn view(&self) -> Failure {
        match self {
            ParseError::EmptyInput => Failure::EmptyInput,
            ParseError::TrailingCharacters(offset) => Failure::TrailingCharacters(*offset as nat),
            ParseError::NoRuleMatched => Failure::NoRuleMatched,
            ParseError::UndefinedRule => Failure::UndefinedRule,
            ParseError::DepthExceeded => Failure::DepthExceeded,
        }
    }
}

/// What ends a parse at once, wherever the engine stands: no other
/// alternative is tried after it.
#[derive(Clone, Copy, Debug, PartialEq, Eq)]
pub enum Halt {
    /// A rule names a rule that the table does not define.
    UndefinedRule,
    /// Rules are nested deeper than the parser allows.
    DepthExceeded,
}

/// The failure that a parse reports for a halt.
pub open spec fn failure_of(halt: Halt) -> Failure {
    match halt {
        Halt::UndefinedRule => Failure::UndefinedRule,
        Halt::DepthExceeded => Failure::DepthExceeded,
    }
}

/// What matching a rule or an alternative at an offset comes to: a node and
/// the offset behind it, no match, or a halt of the whole parse.
pub type Outcome = Result<Option<(NodeView, nat)>, Halt>;

/// What matching the rules of an alternative one after the other comes to:
/// the nodes in order and the offset behind the last.
pub type Collected = Result<Option<(Seq<NodeView>, nat)>, Halt>;

/// Puts `first` in front of the nodes that `rest` collected.
pub open spec fn prepend(first: Seq<NodeView>, rest: Collected) -> Collected {
    match rest {
        Ok(Some((nodes, end))) => Ok(Some((first + nodes, end))),
        other => other,
    }
}

/// One node for the children of an alternative: none is no match, one is
/// that child itself, more are wrapped in a composite.
pub open spec fn assemble(collected: Collected) -> Outcome {
    match collected {
        Ok(Some((children, end))) => if children.len() == 0 {
            Ok(None)
        } else if children.len() == 1 {
            Ok(Some((children[0], end)))
        } else {
            Ok(Some((NodeView::Expr(children), end)))
        },
        Ok(None) => Ok(None),
        Err(error) => Err(error),
    }
}

/// Resolves the rule named `key` at `offset`: the outcome of the first of
/// its alternatives that does not fail. A name that the table lacks ends
/// the parse, and so does a depth that is used up.
pub open spec fn resolve(
    grammar: Grammar,
    key: Seq<char>,
    input: Seq<char>,
    offset: nat,
    depth: nat,
) -> Outcome
    decreases depth, 0nat, 0nat,
{
    if depth == 0 {
        Err(Halt::DepthExceeded)
    } else if !grammar.contains_key(key) {
        Err(Halt::UndefinedRule)
    } else {
        first_match(grammar, grammar[key], 0, input, offset, (depth - 1) as nat)
    }
}

/// Tries the alternatives from index `from` on, in order, and stops at the
/// first that matches or ends the parse.
pub open spec fn first_match(
    grammar: Grammar,
    alternatives: Seq<Seq<RuleView>>,
    from: nat,
    input: Seq<char>,
    offset: nat,
    depth: nat,
) -> Outcome
    decreases depth, 3nat, alternatives.len() - from,
{
    if from >= alternatives.len() {
        Ok(None)
    } else {
        match match_sequence(grammar, alternatives[from as int], input, offset, depth) {
            Ok(None) => first_match(grammar, alternatives, from + 1, input, offset, depth),
            decided => decided,
        }
    }
}

/// Matches one alternative at `offset`.
pub open spec fn match_sequence(
    grammar: Grammar,
    rules: Seq<RuleView>,
    input: Seq<char>,
    offset: nat,
    depth: nat,
) -> Outcome
    decreases depth, 2nat, 0nat,
{
    assemble(match_rules(grammar, rules, 0, input, offset, depth))
}

/// Matches the rules of an alternative from index `from` on. Before each
/// rule the whitespace at the offset is skipped; the first rule that fails
/// fails them all. The offset handed back is the one behind the last rule.
pub open spec fn match_rules(
    grammar: Grammar,
    rules: Seq<RuleView>,
    from: nat,
    input: Seq<char>,
    offset: nat,
    depth: nat,
) -> Collected
    decreases depth, 1nat, rules.len() - from,
{
    if from >= rules.len() {
        Ok(Some((Seq::empty(), offset)))
    } else {
        let at = skip_whitespace(input, offset as int) as nat;
        match rule_outcome(grammar, rules[from as int], input, at, depth) {
            Ok(Some((node, next))) => prepend(
                seq![node],
                match_rules(grammar, rules, from + 1, input, next, depth),
            ),
            Ok(None) => Ok(None),
            Err(error) => Err(error),
        }
    }
}

/// Matches one rule at `at`: a non-terminal by resolving its name, a
/// terminal by its matcher.
pub open spec fn rule_outcome(
    grammar: Grammar,
    rule: RuleView,
    input: Seq<char>,
    at: nat,
    depth: nat,
) -> Outcome
    decreases depth, 0nat, 1nat,
{
    match rule {
        RuleView::NonTerminal(key) => resolve(grammar, key, input, at, depth),
        RuleView::Terminal(matcher) => Ok(matcher(input, at)),
    }
}

/// The result of a parse: the tree that the start rule matches from behind
/// the leading whitespace, if it reaches the end of the input.
pub open spec fn parse_outcome(
    grammar: Grammar,
    depth: nat,
    key: Seq<char>,
    input: Seq<char>,
) -> Result<NodeView, Failure> {
    let start = skip_whitespace(input, 0) as nat;
    if start >= input.len() {
        Err(Failure::EmptyInput)
    } else {
        match resolve(grammar, key, input, start, depth) {
            Ok(Some((node, end))) => if end == input.len() {
                Ok(node)
            } else {
                Err(Failure::TrailingCharacters(end))
            },
            Ok(None) => Err(Failure::NoRuleMatched),
            Err(halt) => Err(failure_of(halt)),
        }
    }
}

} // verus!
