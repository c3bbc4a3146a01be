//! The vocabulary of a grammar: rule names, terminal matchers, rules,
//! alternatives, and the table that maps a name to its alternatives.

use crate::node::{Node, NodeView, match_view};
use vstd::prelude::*;
use vstd::std_specs::convert::FromSpecImpl;

verus! {

/// The name of a grammar rule. Two keys are the same rule when their texts
/// are equal.
#[derive(Debug, Clone, Copy, Eq, Hash, PartialEq, PartialOrd)]
pub struct ParseKey<'a>(pub &'a str);

impl<'a> View for ParseKey<'a> {
    type V = Seq<char>;

    open spec fn view(&self) -> Seq<char> {
        self.0@
    }
}

/// A terminal matcher: a pure function from an input and an offset into it
/// to a node and the offset behind what it consumed.
///
/// A matcher reads the input from `offset` on, skips no whitespace of its
/// own, and answers the same for the same arguments.
///
/// A matcher that is verified says in `matched` what it finds and in `label`
/// what it is called, and proves `call` and `name` against them. One that
/// is written in code that is not verified gives `call` and `name` only;
/// the engine then takes it on trust that `call` is a function of its
/// arguments and stays within the input.
pub trait PrintableCallback {
    /// What the matcher finds at `offset` of `input`: the node and the
    /// offset behind it, or `None` where it does not match. Left open
    /// unless the matcher says it.
    open spec fn matched(&self, input: Seq<char>, offset: nat) -> Option<(NodeView, nat)> {
        arbitrary()
    }

    /// Runs the matcher at `offset` of `expr`. At an offset behind the end
    /// of the input nothing matches.
    fn call<'a>(&self, expr: &'a str, offset: usize) -> (found: Option<(Node<'a>, usize)>)
        ensures
            match_view(found) == self.matched(expr@, offset as nat),
            found matches Some((_, end)) ==> offset <= end <= expr@.len(),
    ;

    /// The name that the matcher goes by in diagnostics. Left open unless
    /// the matcher says it.
    open spec fn label(&self) -> Seq<char> {
        arbitrary()
    }

    /// A name for the matcher, for diagnostics.
    fn name(&self) -> (name: &'static str)
        ensures
            name@ == self.label(),
    ;
}

/// A terminal matcher behind a pointer, as a rule holds it.
pub type TerminalRule = Box<dyn PrintableCallback>;

/// One step of an alternative.
pub enum Rule<'a> {
    /// A reference to another rule of the table, by its name.
    NonTerminal(ParseKey<'a>),
    /// A matcher that reads the input itself.
    Terminal(TerminalRule),
}

/// An alternative: rules that must all match, one after the other.
pub type RuleSet<'a> = Vec<Rule<'a>>;

/// The alternatives of one rule name, in the order in which they are tried.
pub type AlternativeRules<'a> = Vec<RuleSet<'a>>;

/// What a terminal matcher computes, as a mathematical function.
pub type MatchFn = spec_fn(Seq<char>, nat) -> Option<(NodeView, nat)>;

/// The mathematical value of a `Rule`.
pub enum RuleView {
    NonTerminal(Seq<char>),
    Terminal(MatchFn),
}

impl<'a> View for Rule<'a> {
    type V = RuleView;

    open spec fn view(&self) -> RuleView {
        match self {
            Rule::NonTerminal(key) => RuleView::NonTerminal(key@),
            Rule::Terminal(matcher) => RuleView::Terminal(
                |input: Seq<char>, offset: nat| matcher.matched(input, offset),
            ),
        }
    }
}

/// The grammar table as a mathematical map: each rule name with its
/// alternatives in order, each alternative with its rules in order.
pub type Grammar = Map<Seq<char>, Seq<Seq<RuleView>>>;

/// The value of an alternative.
pub open spec fn rule_set_view(rules: RuleSet<'_>) -> Seq<RuleView> {
    Seq::new(rules.len() as nat, |i: int| rules[i]@)
}

/// The value of a list of alternatives.
pub open spec fn alternatives_view(alternatives: AlternativeRules<'_>) -> Seq<Seq<RuleView>> {
    Seq::new(alternatives.len() as nat, |i: int| rule_set_view(alternatives[i]))
}

impl<'a> From<Rule<'a>> for AlternativeRules<'a> {
    /// The alternatives of a rule name that stands for the one rule
    /// `value`: one alternative, which holds that rule.
    fn from(value: Rule<'a>) -> (alternatives: Self)
        ensures
            alternatives_view(alternatives) == seq![seq![value@]],
    {
        let mut only: RuleSet<'a> = Vec::new();
        only.push(value);
        let mut alternatives: AlternativeRules<'a> = Vec::new();
        alternatives.push(only);
        proof {
            assert(rule_set_view(only) =~= seq![value@]);
            assert(alternatives_view(alternatives) =~= seq![seq![value@]]);
        }
        alternatives
    }
}

impl<'a> FromSpecImpl<Rule<'a>> for AlternativeRules<'a> {
    open spec fn obeys_from_spec() -> bool {
        false
    }

    open spec fn from_spec(value: Rule<'a>) -> Self {
        arbitrary()
    }
}

} // verus!
