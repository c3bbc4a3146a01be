//! Laws of the engine, proved of the functions in `semantics`, which
//! `Parser::parse` and the functions under it are proved to compute.

use crate::grammar::{Grammar, RuleView};
use crate::node::{Node, NodeView};
use crate::parser::result_view;
use crate::scan::skip_whitespace;
use crate::semantics::{
    Failure, Halt, ParseError, first_match, match_rules, match_sequence, parse_outcome, resolve,
    rule_outcome,
};
use vstd::prelude::*;

verus! {

/// A parse yields a tree only where the start rule, matched from behind the
/// leading whitespace, ends at the end of the input, and then it yields that
/// rule's node. Where the rule matches and ends earlier, the parse fails
/// with `TrailingCharacters` and the offset that was reached.
pub proof fn full_consumption(grammar: Grammar, depth: nat, key: Seq<char>, input: Seq<char>)
    ensures
        ({
            let start = skip_whitespace(input, 0) as nat;
            let matched = resolve(grammar, key, input, start, depth);
            match parse_outcome(grammar, depth, key, input) {
                Ok(tree) => start < input.len() && matched == Ok::<Option<(NodeView, nat)>, Halt>(
                    Some((tree, input.len())),
                ),
                Err(Failure::TrailingCharacters(stop)) => {
                    &&& start < input.len()
                    &&& stop != input.len()
                    &&& matched matches Ok(Some((_, end))) && end == stop
                },
                Err(Failure::EmptyInput) => start >= input.len(),
                Err(_) => start < input.len() && !(matched matches Ok(Some(_))),
            }
        }),
{
}

/// Parsing is a function of the grammar, the depth limit, the start rule and
/// the input: whatever `Parser::parse` hands back for these four has the one
/// value `parse_outcome`, so two results for the same four are the same tree
/// or the same error.
pub proof fn parse_is_deterministic(
    grammar: Grammar,
    depth: nat,
    key: Seq<char>,
    input: Seq<char>,
    first: Result<Node<'_>, ParseError>,
    second: Result<Node<'_>, ParseError>,
)
    requires
        result_view(first) == parse_outcome(grammar, depth, key, input),
        result_view(second) == parse_outcome(grammar, depth, key, input),
    ensures
        first is Ok == second is Ok,
        first matches Ok(tree) ==> second matches Ok(other) && tree@ == other@,
        first matches Err(error) ==> second matches Err(other) && error == other,
{
    if let Err(error) = first {
        if let Err(other) = second {
            assert(error@ == other@);
        }
    }
}

/// Whether every alternative from index `from` up to, not including, `to`
/// fails to match at `offset`.
pub open spec fn all_fail(
    grammar: Grammar,
    alternatives: Seq<Seq<RuleView>>,
    from: nat,
    to: nat,
    input: Seq<char>,
    offset: nat,
    depth: nat,
) -> bool {
    forall|k: int|
        from <= k < to ==> #[trigger] match_sequence(
            grammar,
            alternatives[k],
            input,
            offset,
            depth,
        ) == Ok::<Option<(NodeView, nat)>, Halt>(None)
}

/// Trying alternatives in order comes to the outcome of the first that does
/// not fail.
pub proof fn first_match_is_first_decided(
    grammar: Grammar,
    alternatives: Seq<Seq<RuleView>>,
    from: nat,
    chosen: nat,
    input: Seq<char>,
    offset: nat,
    depth: nat,
)
    requires
        from <= chosen < alternatives.len(),
        all_fail(grammar, alternatives, from, chosen, input, offset, depth),
        match_sequence(grammar, alternatives[chosen as int], input, offset, depth) != Ok::<Option<(NodeView, nat)>, Halt>(None),
    ensures
        first_match(grammar, alternatives, from, input, offset, depth) == match_sequence(
            grammar,
            alternatives[chosen as int],
            input,
            offset,
            depth,
        ),
    decreases chosen - from,
{
    if from < chosen {
        assert(match_sequence(grammar, alternatives[from as int], input, offset, depth) == Ok::<Option<(NodeView, nat)>, Halt>(None));
        first_match_is_first_decided(
            grammar,
            alternatives,
            from + 1,
            chosen,
            input,
            offset,
            depth,
        );
    }
}

/// Where no alternative matches or ends the parse, trying them in order
/// fails.
pub proof fn first_match_fails_when_all_fail(
    grammar: Grammar,
    alternatives: Seq<Seq<RuleView>>,
    from: nat,
    input: Seq<char>,
    offset: nat,
    depth: nat,
)
    requires
        all_fail(grammar, alternatives, from, alternatives.len(), input, offset, depth),
    ensures
        first_match(grammar, alternatives, from, input, offset, depth) == Ok::<Option<(NodeView, nat)>, Halt>(None),
    decreases alternatives.len() - from,
{
    if from < alternatives.len() {
        assert(match_sequence(grammar, alternatives[from as int], input, offset, depth) == Ok::<Option<(NodeView, nat)>, Halt>(None));
        first_match_fails_when_all_fail(grammar, alternatives, from + 1, input, offset, depth);
    }
}

/// The index of the first alternative, from `from` on and before `upto`,
/// that matches or ends the parse; `upto` where there is none.
pub open spec fn first_decided(
    grammar: Grammar,
    alternatives: Seq<Seq<RuleView>>,
    from: nat,
    upto: nat,
    input: Seq<char>,
    offset: nat,
    depth: nat,
) -> nat
    decreases upto - from,
{
    if from < upto && match_sequence(grammar, alternatives[from as int], input, offset, depth)
        == Ok::<Option<(NodeView, nat)>, Halt>(None) {
        first_decided(grammar, alternatives, from + 1, upto, input, offset, depth)
    } else {
        from
    }
}

/// `first_decided` lies between `from` and `upto`, and every alternative
/// between `from` and it fails.
pub proof fn lemma_first_decided(
    grammar: Grammar,
    alternatives: Seq<Seq<RuleView>>,
    from: nat,
    upto: nat,
    input: Seq<char>,
    offset: nat,
    depth: nat,
)
    requires
        from <= upto,
    ensures
        ({
            let chosen = first_decided(grammar, alternatives, from, upto, input, offset, depth);
            &&& from <= chosen <= upto
            &&& all_fail(grammar, alternatives, from, chosen, input, offset, depth)
            &&& chosen < upto ==> match_sequence(
                grammar,
                alternatives[chosen as int],
                input,
                offset,
                depth,
            ) != Ok::<Option<(NodeView, nat)>, Halt>(None)
        }),
    decreases upto - from,
{
    if from < upto && match_sequence(grammar, alternatives[from as int], input, offset, depth)
        == Ok::<Option<(NodeView, nat)>, Halt>(None) {
        lemma_first_decided(grammar, alternatives, from + 1, upto, input, offset, depth);
    }
}

/// Ordered choice: where alternatives `i` and `j`, `i` before `j`, of one
/// rule both match the input at one offset, the rule resolves to what the
/// first alternative gives that matches or ends the parse there. That one is
/// `i` or stands before `i`; it is `i` where every alternative before `i`
/// fails. What `j` would consume plays no part.
pub proof fn first_alternative_precedence(
    grammar: Grammar,
    key: Seq<char>,
    input: Seq<char>,
    offset: nat,
    depth: nat,
    i: nat,
    j: nat,
)
    requires
        depth > 0,
        grammar.contains_key(key),
        i < j < grammar[key].len(),
        match_sequence(grammar, grammar[key][i as int], input, offset, (depth - 1) as nat) matches Ok(
            Some(_),
        ),
        match_sequence(grammar, grammar[key][j as int], input, offset, (depth - 1) as nat) matches Ok(
            Some(_),
        ),
    ensures
        ({
            let below = (depth - 1) as nat;
            let chosen = first_decided(grammar, grammar[key], 0, i, input, offset, below);
            &&& chosen <= i
            &&& resolve(grammar, key, input, offset, depth) == match_sequence(
                grammar,
                grammar[key][chosen as int],
                input,
                offset,
                below,
            )
            &&& all_fail(grammar, grammar[key], 0, i, input, offset, below) ==> chosen == i
        }),
{
    let below = (depth - 1) as nat;
    let chosen = first_decided(grammar, grammar[key], 0, i, input, offset, below);
    lemma_first_decided(grammar, grammar[key], 0, i, input, offset, below);
    first_match_is_first_decided(grammar, grammar[key], 0, chosen, input, offset, below);
    if all_fail(grammar, grammar[key], 0, i, input, offset, below) && chosen < i {
        assert(match_sequence(grammar, grammar[key][chosen as int], input, offset, below) == Ok::<
            Option<(NodeView, nat)>,
            Halt,
        >(None));
    }
}

/// Matching the rules of an alternative from index `from` on collects one
/// node for each of them.
pub proof fn match_rules_collects_one_node_per_rule(
    grammar: Grammar,
    rules: Seq<RuleView>,
    from: nat,
    input: Seq<char>,
    offset: nat,
    depth: nat,
)
    requires
        from <= rules.len(),
    ensures
        match_rules(grammar, rules, from, input, offset, depth) matches Ok(Some((children, _)))
            ==> children.len() == rules.len() - from,
    decreases rules.len() - from,
{
    if from < rules.len() {
        let at = skip_whitespace(input, offset as int) as nat;
        if let Ok(Some((node, next))) = rule_outcome(grammar, rules[from as int], input, at, depth) {
            match_rules_collects_one_node_per_rule(grammar, rules, from + 1, input, next, depth);
        }
    }
}

/// Collapse: an alternative of one rule gives the node of that rule as it
/// is, matched behind the whitespace at the offset, and never a composite
/// around it.
pub proof fn single_child_is_not_wrapped(
    grammar: Grammar,
    rules: Seq<RuleView>,
    input: Seq<char>,
    offset: nat,
    depth: nat,
)
    requires
        rules.len() == 1,
    ensures
        match_sequence(grammar, rules, input, offset, depth) == rule_outcome(
            grammar,
            rules[0],
            input,
            skip_whitespace(input, offset as int) as nat,
            depth,
        ),
{
    let at = skip_whitespace(input, offset as int) as nat;
    if let Ok(Some((node, next))) = rule_outcome(grammar, rules[0], input, at, depth) {
        assert(match_rules(grammar, rules, 1, input, next, depth) == Ok::<Option<(Seq<NodeView>, nat)>, Halt>(Some((Seq::empty(), next))));
        assert(seq![node] + Seq::<NodeView>::empty() =~= seq![node]);
    }
}

/// A composite that an alternative makes holds two children or more, one
/// for each of its rules.
pub proof fn composite_has_a_child_per_rule(
    grammar: Grammar,
    rules: Seq<RuleView>,
    input: Seq<char>,
    offset: nat,
    depth: nat,
)
    requires
        rules.len() >= 2,
    ensures
        match_sequence(grammar, rules, input, offset, depth) matches Ok(Some((node, _)))
            ==> node matches NodeView::Expr(children) && children.len() == rules.len(),
{
    match_rules_collects_one_node_per_rule(grammar, rules, 0, input, offset, depth);
}

/// An alternative without rules never matches.
pub proof fn empty_sequence_fails(
    grammar: Grammar,
    rules: Seq<RuleView>,
    input: Seq<char>,
    offset: nat,
    depth: nat,
)
    requires
        rules.len() == 0,
    ensures
        match_sequence(grammar, rules, input, offset, depth) == Ok::<Option<(NodeView, nat)>, Halt>(None),
{
}

/// A rule whose alternatives are all without rules never matches.
pub proof fn rule_of_empty_sequences_fails(
    grammar: Grammar,
    key: Seq<char>,
    input: Seq<char>,
    offset: nat,
    depth: nat,
)
    requires
        depth > 0,
        grammar.contains_key(key),
        forall|k: int| 0 <= k < grammar[key].len() ==> (#[trigger] grammar[key][k]).len() == 0,
    ensures
        resolve(grammar, key, input, offset, depth) == Ok::<Option<(NodeView, nat)>, Halt>(
            None,
        ),
{
    assert forall|k: int| 0 <= k < grammar[key].len() implies #[trigger] match_sequence(
        grammar,
        grammar[key][k],
        input,
        offset,
        (depth - 1) as nat,
    ) == Ok::<Option<(NodeView, nat)>, Halt>(None) by {
        empty_sequence_fails(grammar, grammar[key][k], input, offset, (depth - 1) as nat);
    }
    first_match_fails_when_all_fail(grammar, grammar[key], 0, input, offset, (depth - 1) as nat);
}

} // verus!
