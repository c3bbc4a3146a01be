//! A parse reads the input from the offset on and nothing before it: where
//! two inputs go on alike from two offsets, the engine answers alike, as
//! long as the matchers of the grammar do. Whitespace in front of an input
//! therefore changes nothing but the offsets.

use crate::grammar::{
    AlternativeRules, Grammar, MatchFn, ParseKey, Rule, RuleView, alternatives_view,
};
use crate::node::NodeView;
use crate::parser::table_of;
use crate::primitives::{
    float_match, is_terminal_of, occurs_at, signed_match, token_match, unsigned_match,
    word_match,
};
use crate::scan::{
    CharClass, lemma_run_end_is_run_end, lemma_run_end_of_remainder, run_end, skip_whitespace,
};
use crate::semantics::{
    Collected, Failure, Outcome, first_match, match_rules, match_sequence, parse_outcome,
    resolve, rule_outcome,
};
use vstd::prelude::*;

verus! {

/// Whether `a` from `i` on is the same text as `b` from `j` on.
pub open spec fn same_remainder(a: Seq<char>, i: nat, b: Seq<char>, j: nat) -> bool {
    &&& i <= a.len()
    &&& j <= b.len()
    &&& a.skip(i as int) == b.skip(j as int)
}

/// Whether two answers of a matcher, one at `i` and one at `j`, are the
/// same: the same node, ending as far behind the offset, and no further
/// than `width` behind it; or no match both.
pub open spec fn same_answer(
    first: Option<(NodeView, nat)>,
    i: nat,
    second: Option<(NodeView, nat)>,
    j: nat,
    width: nat,
) -> bool {
    match (first, second) {
        (Some((node, end)), Some((other, other_end))) => {
            &&& node == other
            &&& i <= end <= i + width
            &&& end - i == other_end - j
        },
        (None, None) => true,
        _ => false,
    }
}

/// Whether a matcher reads the input from the offset on only: where two
/// inputs go on alike from two offsets, it answers the same, and what it
/// matches lies between the offset and the end of the input.
pub open spec fn reads_only_ahead(matcher: MatchFn) -> bool {
    forall|a: Seq<char>, i: nat, b: Seq<char>, j: nat|
        #![trigger matcher(a, i), matcher(b, j)]
        same_remainder(a, i, b, j) ==> same_answer(
            matcher(a, i),
            i,
            matcher(b, j),
            j,
            (a.len() - i) as nat,
        )
}

/// Whether `rule`, if it is a terminal, reads from the offset on only.
pub open spec fn rule_reads_ahead(rule: RuleView) -> bool {
    rule matches RuleView::Terminal(matcher) ==> reads_only_ahead(matcher)
}

/// Whether the terminals of an alternative read from the offset on only.
pub open spec fn rules_read_ahead(rules: Seq<RuleView>) -> bool {
    forall|k: int| 0 <= k < rules.len() ==> rule_reads_ahead(#[trigger] rules[k])
}

/// Whether the terminals of some alternatives read from the offset on only.
pub open spec fn alternatives_read_ahead(alternatives: Seq<Seq<RuleView>>) -> bool {
    forall|k: int| 0 <= k < alternatives.len() ==> rules_read_ahead(#[trigger] alternatives[k])
}

/// Whether every terminal of the grammar reads from the offset on only.
pub open spec fn grammar_reads_ahead(grammar: Grammar) -> bool {
    forall|key: Seq<char>|
        grammar.contains_key(key) ==> alternatives_read_ahead(#[trigger] grammar[key])
}

/// Whether two outcomes, one from offset `i` of an input of length `len`
/// and one from offset `j` of another, are the same but for where they
/// stand: the same node, ending as far behind the offset; no match both; or
/// the same halt.
pub open spec fn shifted(first: Outcome, i: nat, second: Outcome, j: nat, len: nat) -> bool {
    match (first, second) {
        (Ok(Some((node, end))), Ok(Some((other, other_end)))) => {
            &&& node == other
            &&& i <= end <= len
            &&& end - i == other_end - j
        },
        (Ok(None), Ok(None)) => true,
        (Err(halt), Err(other)) => halt == other,
        _ => false,
    }
}

/// `shifted`, of the nodes that the rules of an alternative collect.
pub open spec fn shifted_collected(
    first: Collected,
    i: nat,
    second: Collected,
    j: nat,
    len: nat,
) -> bool {
    match (first, second) {
        (Ok(Some((nodes, end))), Ok(Some((others, other_end)))) => {
            &&& nodes == others
            &&& i <= end <= len
            &&& end - i == other_end - j
        },
        (Ok(None), Ok(None)) => true,
        (Err(halt), Err(other)) => halt == other,
        _ => false,
    }
}

/// Inputs that go on alike from two offsets go on alike from any two
/// offsets that lie as far behind those.
pub proof fn lemma_same_remainder_further(
    a: Seq<char>,
    i: nat,
    b: Seq<char>,
    j: nat,
    end: nat,
    other_end: nat,
)
    requires
        same_remainder(a, i, b, j),
        i <= end <= a.len(),
        end - i == other_end - j,
    ensures
        same_remainder(a, end, b, other_end),
{
    assert(a.skip(i as int).len() == a.len() - i);
    assert(b.skip(j as int).len() == b.len() - j);
    assert(a.skip(end as int) =~= a.skip(i as int).skip(end - i));
    assert(b.skip(other_end as int) =~= b.skip(j as int).skip(other_end - j));
}

/// A rule resolves alike on two inputs that go on alike.
pub proof fn lemma_resolve_shifted(
    grammar: Grammar,
    key: Seq<char>,
    a: Seq<char>,
    i: nat,
    b: Seq<char>,
    j: nat,
    depth: nat,
)
    requires
        grammar_reads_ahead(grammar),
        same_remainder(a, i, b, j),
    ensures
        shifted(
            resolve(grammar, key, a, i, depth),
            i,
            resolve(grammar, key, b, j, depth),
            j,
            a.len(),
        ),
    decreases depth, 0nat, 0nat,
{
    if depth > 0 && grammar.contains_key(key) {
        lemma_first_match_shifted(grammar, grammar[key], 0, a, i, b, j, (depth - 1) as nat);
    }
}

/// Alternatives tried in order come out alike on two inputs that go on
/// alike.
pub proof fn lemma_first_match_shifted(
    grammar: Grammar,
    alternatives: Seq<Seq<RuleView>>,
    from: nat,
    a: Seq<char>,
    i: nat,
    b: Seq<char>,
    j: nat,
    depth: nat,
)
    requires
        grammar_reads_ahead(grammar),
        alternatives_read_ahead(alternatives),
        same_remainder(a, i, b, j),
    ensures
        shifted(
            first_match(grammar, alternatives, from, a, i, depth),
            i,
            first_match(grammar, alternatives, from, b, j, depth),
            j,
            a.len(),
        ),
    decreases depth, 3nat, alternatives.len() - from,
{
    if from < alternatives.len() {
        lemma_match_sequence_shifted(grammar, alternatives[from as int], a, i, b, j, depth);
        lemma_first_match_shifted(grammar, alternatives, from + 1, a, i, b, j, depth);
    }
}

/// An alternative matches alike on two inputs that go on alike.
pub proof fn lemma_match_sequence_shifted(
    grammar: Grammar,
    rules: Seq<RuleView>,
    a: Seq<char>,
    i: nat,
    b: Seq<char>,
    j: nat,
    depth: nat,
)
    requires
        grammar_reads_ahead(grammar),
        rules_read_ahead(rules),
        same_remainder(a, i, b, j),
    ensures
        shifted(
            match_sequence(grammar, rules, a, i, depth),
            i,
            match_sequence(grammar, rules, b, j, depth),
            j,
            a.len(),
        ),
    decreases depth, 2nat, 0nat,
{
    lemma_match_rules_shifted(grammar, rules, 0, a, i, b, j, depth);
}

/// The rules of an alternative collect alike on two inputs that go on
/// alike.
pub proof fn lemma_match_rules_shifted(
    grammar: Grammar,
    rules: Seq<RuleView>,
    from: nat,
    a: Seq<char>,
    i: nat,
    b: Seq<char>,
    j: nat,
    depth: nat,
)
    requires
        grammar_reads_ahead(grammar),
        rules_read_ahead(rules),
        same_remainder(a, i, b, j),
    ensures
        shifted_collected(
            match_rules(grammar, rules, from, a, i, depth),
            i,
            match_rules(grammar, rules, from, b, j, depth),
            j,
            a.len(),
        ),
    decreases depth, 1nat, rules.len() - from,
{
    if from < rules.len() {
        let at_a = skip_whitespace(a, i as int) as nat;
        let at_b = skip_whitespace(b, j as int) as nat;
        lemma_run_end_is_run_end(a, i as int, CharClass::Space);
        lemma_run_end_is_run_end(b, j as int, CharClass::Space);
        lemma_run_end_of_remainder(a, i as int, b, j as int, CharClass::Space);
        lemma_same_remainder_further(a, i, b, j, at_a, at_b);
        lemma_rule_outcome_shifted(grammar, rules[from as int], a, at_a, b, at_b, depth);
        let first = rule_outcome(grammar, rules[from as int], a, at_a, depth);
        let second = rule_outcome(grammar, rules[from as int], b, at_b, depth);
        if let Ok(Some((node, end))) = first {
            if let Ok(Some((other, other_end))) = second {
                lemma_same_remainder_further(a, at_a, b, at_b, end, other_end);
                lemma_match_rules_shifted(grammar, rules, from + 1, a, end, b, other_end, depth);
            }
        }
    }
}

/// One rule matches alike on two inputs that go on alike.
pub proof fn lemma_rule_outcome_shifted(
    grammar: Grammar,
    rule: RuleView,
    a: Seq<char>,
    i: nat,
    b: Seq<char>,
    j: nat,
    depth: nat,
)
    requires
        grammar_reads_ahead(grammar),
        rule_reads_ahead(rule),
        same_remainder(a, i, b, j),
    ensures
        shifted(
            rule_outcome(grammar, rule, a, i, depth),
            i,
            rule_outcome(grammar, rule, b, j, depth),
            j,
            a.len(),
        ),
    decreases depth, 0nat, 1nat,
{
    match rule {
        RuleView::NonTerminal(key) => {
            lemma_resolve_shifted(grammar, key, a, i, b, j, depth);
        },
        RuleView::Terminal(matcher) => {
            assert(same_answer(matcher(a, i), i, matcher(b, j), j, (a.len() - i) as nat));
        },
    }
}

/// Whitespace in front of an input does not matter: two inputs that are the
/// same behind their leading whitespace parse to the same tree or fail in
/// the same way, in a grammar whose matchers read from the offset on only.
/// The offset that `TrailingCharacters` reports lies as far behind the
/// leading whitespace in both.
pub proof fn leading_whitespace_insensitivity(
    grammar: Grammar,
    depth: nat,
    key: Seq<char>,
    a: Seq<char>,
    b: Seq<char>,
)
    requires
        grammar_reads_ahead(grammar),
        a.skip(skip_whitespace(a, 0)) == b.skip(skip_whitespace(b, 0)),
    ensures
        match (parse_outcome(grammar, depth, key, a), parse_outcome(grammar, depth, key, b)) {
            (Ok(tree), Ok(other)) => tree == other,
            (
                Err(Failure::TrailingCharacters(stop)),
                Err(Failure::TrailingCharacters(other_stop)),
            ) => stop - skip_whitespace(a, 0) == other_stop - skip_whitespace(b, 0),
            (Err(failure), Err(other)) => failure == other,
            _ => false,
        },
{
    lemma_run_end_is_run_end(a, 0, CharClass::Space);
    lemma_run_end_is_run_end(b, 0, CharClass::Space);
    let start_a = skip_whitespace(a, 0) as nat;
    let start_b = skip_whitespace(b, 0) as nat;
    assert(a.skip(start_a as int).len() == a.len() - start_a);
    assert(b.skip(start_b as int).len() == b.len() - start_b);
    lemma_resolve_shifted(grammar, key, a, start_a, b, start_b, depth);
}

/// A text stands at an offset exactly where what follows the offset begins
/// with it.
pub proof fn lemma_occurs_in_remainder(s: Seq<char>, i: nat, text: Seq<char>)
    requires
        i <= s.len(),
    ensures
        occurs_at(s, i, text) == occurs_at(s.skip(i as int), 0, text),
{
    let rest = s.skip(i as int);
    assert(rest.len() == s.len() - i);
    if i + text.len() <= s.len() {
        assert(rest.subrange(0, text.len() as int) =~= s.subrange(
            i as int,
            (i + text.len()) as int,
        ));
    }
}

/// The matcher for a literal reads from the offset on only.
pub proof fn lemma_token_reads_ahead(literal: Seq<char>)
    ensures
        reads_only_ahead(|input: Seq<char>, offset: nat| token_match(literal, input, offset)),
{
    let matcher = |input: Seq<char>, offset: nat| token_match(literal, input, offset);
    assert forall|a: Seq<char>, i: nat, b: Seq<char>, j: nat|
        #![trigger matcher(a, i), matcher(b, j)]
        same_remainder(a, i, b, j) implies same_answer(
        matcher(a, i),
        i,
        matcher(b, j),
        j,
        (a.len() - i) as nat,
    ) by {
        lemma_occurs_in_remainder(a, i, literal);
        lemma_occurs_in_remainder(b, j, literal);
    }
}

/// The matcher for decimal numerals reads from the offset on only.
pub proof fn lemma_float_reads_ahead()
    ensures
        reads_only_ahead(|input: Seq<char>, offset: nat| float_match(input, offset)),
{
    let matcher = |input: Seq<char>, offset: nat| float_match(input, offset);
    assert forall|a: Seq<char>, i: nat, b: Seq<char>, j: nat|
        #![trigger matcher(a, i), matcher(b, j)]
        same_remainder(a, i, b, j) implies same_answer(
        matcher(a, i),
        i,
        matcher(b, j),
        j,
        (a.len() - i) as nat,
    ) by {
        if let Some((NodeView::LiteralFloat(lexeme), end)) = matcher(a, i) {
            lemma_occurs_in_remainder(a, i, lexeme);
            lemma_occurs_in_remainder(b, j, lexeme);
        }
        if let Some((NodeView::LiteralFloat(lexeme), end)) = matcher(b, j) {
            lemma_occurs_in_remainder(a, i, lexeme);
            lemma_occurs_in_remainder(b, j, lexeme);
        }
    }
}

/// The matcher for words reads from the offset on only.
pub proof fn lemma_word_reads_ahead()
    ensures
        reads_only_ahead(|input: Seq<char>, offset: nat| word_match(input, offset)),
{
    let matcher = |input: Seq<char>, offset: nat| word_match(input, offset);
    assert forall|a: Seq<char>, i: nat, b: Seq<char>, j: nat|
        #![trigger matcher(a, i), matcher(b, j)]
        same_remainder(a, i, b, j) implies same_answer(
        matcher(a, i),
        i,
        matcher(b, j),
        j,
        (a.len() - i) as nat,
    ) by {
        lemma_run_of_remainder(a, i, b, j, CharClass::NonSpace);
    }
}

/// The matcher for unsigned integers reads from the offset on only.
pub proof fn lemma_unsigned_reads_ahead()
    ensures
        reads_only_ahead(|input: Seq<char>, offset: nat| unsigned_match(input, offset)),
{
    let matcher = |input: Seq<char>, offset: nat| unsigned_match(input, offset);
    assert forall|a: Seq<char>, i: nat, b: Seq<char>, j: nat|
        #![trigger matcher(a, i), matcher(b, j)]
        same_remainder(a, i, b, j) implies same_answer(
        matcher(a, i),
        i,
        matcher(b, j),
        j,
        (a.len() - i) as nat,
    ) by {
        lemma_run_of_remainder(a, i, b, j, CharClass::Digit);
    }
}

/// The matcher for signed integers reads from the offset on only.
pub proof fn lemma_signed_reads_ahead()
    ensures
        reads_only_ahead(|input: Seq<char>, offset: nat| signed_match(input, offset)),
{
    let matcher = |input: Seq<char>, offset: nat| signed_match(input, offset);
    assert forall|a: Seq<char>, i: nat, b: Seq<char>, j: nat|
        #![trigger matcher(a, i), matcher(b, j)]
        same_remainder(a, i, b, j) implies same_answer(
        matcher(a, i),
        i,
        matcher(b, j),
        j,
        (a.len() - i) as nat,
    ) by {
        lemma_run_of_remainder(a, i, b, j, CharClass::Digit);
    }
}

/// Inputs that go on alike begin with the same run of a class.
pub proof fn lemma_run_of_remainder(
    a: Seq<char>,
    i: nat,
    b: Seq<char>,
    j: nat,
    class: CharClass,
)
    requires
        same_remainder(a, i, b, j),
    ensures
        i <= run_end(a, i as int, class) <= a.len(),
        run_end(a, i as int, class) - i == run_end(b, j as int, class)
            - j,
        a.subrange(i as int, run_end(a, i as int, class)) == b.subrange(
            j as int,
            run_end(b, j as int, class),
        ),
{
    let end = run_end(a, i as int, class);
    let other_end = run_end(b, j as int, class);
    lemma_run_end_is_run_end(a, i as int, class);
    lemma_run_end_is_run_end(b, j as int, class);
    lemma_run_end_of_remainder(a, i as int, b, j as int, class);
    assert(a.subrange(i as int, end) =~= a.skip(i as int).subrange(0, end - i));
    assert(b.subrange(j as int, other_end) =~= b.skip(j as int).subrange(0, other_end - j));
}

/// A terminal rule reads from the offset on only if what its matcher
/// computes does.
pub proof fn lemma_terminal_reads_ahead(rule: Rule<'_>, matcher: MatchFn)
    requires
        is_terminal_of(rule, matcher),
        reads_only_ahead(matcher),
    ensures
        rule_reads_ahead(rule@),
{
    let held = rule@->Terminal_0;
    assert forall|a: Seq<char>, i: nat, b: Seq<char>, j: nat|
        #![trigger held(a, i), held(b, j)]
        same_remainder(a, i, b, j) implies same_answer(
        held(a, i),
        i,
        held(b, j),
        j,
        (a.len() - i) as nat,
    ) by {
        assert(held(a, i) == matcher(a, i));
        assert(held(b, j) == matcher(b, j));
    }
}

/// A table made of entries whose terminals read from the offset on only is
/// a grammar whose terminals do.
pub proof fn lemma_table_reads_ahead(entries: Seq<(ParseKey<'_>, AlternativeRules<'_>)>)
    requires
        forall|k: int|
            0 <= k < entries.len() ==> alternatives_read_ahead(
                alternatives_view(#[trigger] entries[k].1),
            ),
    ensures
        grammar_reads_ahead(table_of(entries)),
    decreases entries.len(),
{
    if entries.len() > 0 {
        let earlier = entries.drop_last();
        assert forall|k: int| 0 <= k < earlier.len() implies alternatives_read_ahead(
            alternatives_view(#[trigger] earlier[k].1),
        ) by {
            assert(earlier[k] == entries[k]);
        }
        lemma_table_reads_ahead(earlier);
        assert(alternatives_read_ahead(alternatives_view(entries[entries.len() - 1].1)));
    }
}

} // verus!
