//! Whitespace may be put between two tokens that touch, or taken away from
//! between two tokens: the tree stays the same, as long as no whitespace
//! comes to stand inside what a matcher takes for one token.
//!
//! Two inputs are compared that hold the same characters once their
//! whitespace is left out. The law asks of every matcher of the grammar that
//! it answers alike on the two; for literals, integers and words this comes
//! to saying that their characters stand together in both inputs.

use crate::grammar::{
    AlternativeRules, Grammar, MatchFn, ParseKey, Rule, RuleView, alternatives_view,
};
use crate::node::NodeView;
use crate::parser::table_of;
use crate::primitives::{
    is_terminal_of, occurs_at, signed_match, token_match, unsigned_match, word_match,
};
use crate::scan::{
    CharClass, in_class, is_space, lemma_run_end_is_run_end, run_end, skip_whitespace,
};
use crate::semantics::{
    Collected, Failure, Outcome, first_match, match_rules, match_sequence, parse_outcome,
    resolve, rule_outcome,
};
use vstd::prelude::*;

verus! {

/// Whether `a` from `i` on and `b` from `j` on hold the same characters in
/// the same order, whitespace left out.
pub open spec fn same_text(a: Seq<char>, i: int, b: Seq<char>, j: int) -> bool
    decreases a.len() - i,
    when 0 <= i && 0 <= j
{
    let x = skip_whitespace(a, i);
    let y = skip_whitespace(b, j);
    if x >= a.len() || y >= b.len() {
        x >= a.len() && y >= b.len()
    } else {
        proof {
            if i <= a.len() {
                lemma_run_end_is_run_end(a, i, CharClass::Space);
            }
        }
        a[x] == b[y] && same_text(a, x + 1, b, y + 1)
    }
}

/// Whether `i` is an offset of `s` at which a token can begin: no
/// whitespace stands there.
pub open spec fn at_token(s: Seq<char>, i: nat) -> bool {
    i <= s.len() && skip_whitespace(s, i as int) == i
}

/// Whether the `width` characters of `s` from `i` on stand together: they
/// are there, and none of them is whitespace.
pub open spec fn solid(s: Seq<char>, i: int, width: int) -> bool {
    &&& i + width <= s.len()
    &&& forall|k: int| i <= k < i + width ==> !is_space(#[trigger] s[k])
}

/// Whether `s` does not end in whitespace.
pub open spec fn ends_solid(s: Seq<char>) -> bool {
    s.len() > 0 ==> !is_space(s[s.len() - 1])
}

/// Whether two answers of a matcher, one on `a` and one on `b`, are the
/// same: the same node, with the same text behind it in both inputs; or no
/// match both.
pub open spec fn like_answer(
    a: Seq<char>,
    first: Option<(NodeView, nat)>,
    b: Seq<char>,
    second: Option<(NodeView, nat)>,
) -> bool {
    match (first, second) {
        (Some((node, end)), Some((other, other_end))) => {
            &&& node == other
            &&& end <= a.len()
            &&& other_end <= b.len()
            &&& same_text(a, end as int, b, other_end as int)
        },
        (None, None) => true,
        _ => false,
    }
}

/// Whether a matcher answers alike on `a` and `b`, wherever it is asked at
/// two offsets from which the inputs hold the same text.
pub open spec fn answers_alike(matcher: MatchFn, a: Seq<char>, b: Seq<char>) -> bool {
    forall|i: nat, j: nat|
        #![trigger matcher(a, i), matcher(b, j)]
        at_token(a, i) && at_token(b, j) && same_text(a, i as int, b, j as int) ==> like_answer(
            a,
            matcher(a, i),
            b,
            matcher(b, j),
        )
}

/// Whether `rule`, if it is a terminal, answers alike on `a` and `b`.
pub open spec fn rule_answers_alike(rule: RuleView, a: Seq<char>, b: Seq<char>) -> bool {
    rule matches RuleView::Terminal(matcher) ==> answers_alike(matcher, a, b)
}

/// Whether the terminals of an alternative answer alike on `a` and `b`.
pub open spec fn rules_answer_alike(rules: Seq<RuleView>, a: Seq<char>, b: Seq<char>) -> bool {
    forall|k: int| 0 <= k < rules.len() ==> rule_answers_alike(#[trigger] rules[k], a, b)
}

/// Whether the terminals of some alternatives answer alike on `a` and `b`.
pub open spec fn alternatives_answer_alike(
    alternatives: Seq<Seq<RuleView>>,
    a: Seq<char>,
    b: Seq<char>,
) -> bool {
    forall|k: int|
        0 <= k < alternatives.len() ==> rules_answer_alike(#[trigger] alternatives[k], a, b)
}

/// Whether every terminal of the grammar answers alike on `a` and `b`.
pub open spec fn grammar_answers_alike(grammar: Grammar, a: Seq<char>, b: Seq<char>) -> bool {
    forall|key: Seq<char>|
        grammar.contains_key(key) ==> alternatives_answer_alike(#[trigger] grammar[key], a, b)
}

/// Whether two outcomes, one on `a` and one on `b`, are the same: the same
/// node, with the same text behind it; no match both; or the same halt.
pub open spec fn like(a: Seq<char>, first: Outcome, b: Seq<char>, second: Outcome) -> bool {
    match (first, second) {
        (Ok(first), Ok(second)) => like_answer(a, first, b, second),
        (Err(halt), Err(other)) => halt == other,
        _ => false,
    }
}

/// `like`, of the nodes that the rules of an alternative collect.
pub open spec fn like_collected(
    a: Seq<char>,
    first: Collected,
    b: Seq<char>,
    second: Collected,
) -> bool {
    match (first, second) {
        (Ok(Some((nodes, end))), Ok(Some((others, other_end)))) => {
            &&& nodes == others
            &&& end <= a.len()
            &&& other_end <= b.len()
            &&& same_text(a, end as int, b, other_end as int)
        },
        (Ok(None), Ok(None)) => true,
        (Err(halt), Err(other)) => halt == other,
        _ => false,
    }
}

/// Inputs that hold the same text hold it behind their leading whitespace,
/// where a token can begin.
pub proof fn lemma_same_text_behind_whitespace(a: Seq<char>, i: nat, b: Seq<char>, j: nat)
    requires
        i <= a.len(),
        j <= b.len(),
        same_text(a, i as int, b, j as int),
    ensures
        i <= skip_whitespace(a, i as int) <= a.len(),
        j <= skip_whitespace(b, j as int) <= b.len(),
        at_token(a, skip_whitespace(a, i as int) as nat),
        at_token(b, skip_whitespace(b, j as int) as nat),
        same_text(a, skip_whitespace(a, i as int), b, skip_whitespace(b, j as int)),
        skip_whitespace(a, i as int) == a.len() <==> skip_whitespace(b, j as int) == b.len(),
{
    lemma_run_end_is_run_end(a, i as int, CharClass::Space);
    lemma_run_end_is_run_end(b, j as int, CharClass::Space);
    let x = skip_whitespace(a, i as int);
    let y = skip_whitespace(b, j as int);
    assert(skip_whitespace(a, x) == x);
    assert(skip_whitespace(b, y) == y);
}

/// Where the same text follows two offsets and the next `width` characters
/// stand together in both inputs, they are the same characters, and the
/// same text follows them.
pub proof fn lemma_same_text_solid(a: Seq<char>, i: int, b: Seq<char>, j: int, width: int)
    requires
        0 <= i,
        0 <= j,
        0 <= width,
        same_text(a, i, b, j),
        solid(a, i, width),
        solid(b, j, width),
    ensures
        a.subrange(i, i + width) == b.subrange(j, j + width),
        same_text(a, i + width, b, j + width),
    decreases width,
{
    if width == 0 {
        assert(a.subrange(i, i) =~= b.subrange(j, j));
    } else {
        assert(!is_space(a[i]));
        assert(!is_space(b[j]));
        assert(skip_whitespace(a, i) == i);
        assert(skip_whitespace(b, j) == j);
        lemma_same_text_solid(a, i + 1, b, j + 1, width - 1);
        assert(a.subrange(i, i + width) =~= seq![a[i]] + a.subrange(i + 1, i + width));
        assert(b.subrange(j, j + width) =~= seq![b[j]] + b.subrange(j + 1, j + width));
    }
}

/// Where the same text follows two offsets and neither input ends in
/// whitespace, one offset is the end of its input exactly when the other
/// is.
pub proof fn lemma_same_text_at_the_end(a: Seq<char>, i: nat, b: Seq<char>, j: nat)
    requires
        i <= a.len(),
        j <= b.len(),
        same_text(a, i as int, b, j as int),
        ends_solid(a),
        ends_solid(b),
    ensures
        i == a.len() <==> j == b.len(),
{
    lemma_run_end_is_run_end(a, i as int, CharClass::Space);
    lemma_run_end_is_run_end(b, j as int, CharClass::Space);
    if i == a.len() && j < b.len() {
        assert(is_space(b[b.len() - 1]));
    }
    if j == b.len() && i < a.len() {
        assert(is_space(a[a.len() - 1]));
    }
}

/// A rule resolves alike on two inputs that hold the same text.
pub proof fn lemma_resolve_like(
    grammar: Grammar,
    key: Seq<char>,
    a: Seq<char>,
    i: nat,
    b: Seq<char>,
    j: nat,
    depth: nat,
)
    requires
        grammar_answers_alike(grammar, a, b),
        i <= a.len(),
        j <= b.len(),
        same_text(a, i as int, b, j as int),
    ensures
        like(a, resolve(grammar, key, a, i, depth), b, resolve(grammar, key, b, j, depth)),
    decreases depth, 0nat, 0nat,
{
    if depth > 0 && grammar.contains_key(key) {
        lemma_first_match_like(grammar, grammar[key], 0, a, i, b, j, (depth - 1) as nat);
    }
}

/// Alternatives tried in order come out alike on two inputs that hold the
/// same text.
pub proof fn lemma_first_match_like(
    grammar: Grammar,
    alternatives: Seq<Seq<RuleView>>,
    from: nat,
    a: Seq<char>,
    i: nat,
    b: Seq<char>,
    j: nat,
    depth: nat,
)
    requires
        grammar_answers_alike(grammar, a, b),
        alternatives_answer_alike(alternatives, a, b),
        i <= a.len(),
        j <= b.len(),
        same_text(a, i as int, b, j as int),
    ensures
        like(
            a,
            first_match(grammar, alternatives, from, a, i, depth),
            b,
            first_match(grammar, alternatives, from, b, j, depth),
        ),
    decreases depth, 3nat, alternatives.len() - from,
{
    if from < alternatives.len() {
        lemma_match_sequence_like(grammar, alternatives[from as int], a, i, b, j, depth);
        lemma_first_match_like(grammar, alternatives, from + 1, a, i, b, j, depth);
    }
}

/// An alternative matches alike on two inputs that hold the same text.
pub proof fn lemma_match_sequence_like(
    grammar: Grammar,
    rules: Seq<RuleView>,
    a: Seq<char>,
    i: nat,
    b: Seq<char>,
    j: nat,
    depth: nat,
)
    requires
        grammar_answers_alike(grammar, a, b),
        rules_answer_alike(rules, a, b),
        i <= a.len(),
        j <= b.len(),
        same_text(a, i as int, b, j as int),
    ensures
        like(
            a,
            match_sequence(grammar, rules, a, i, depth),
            b,
            match_sequence(grammar, rules, b, j, depth),
        ),
    decreases depth, 2nat, 0nat,
{
    lemma_match_rules_like(grammar, rules, 0, a, i, b, j, depth);
}

/// The rules of an alternative collect alike on two inputs that hold the
/// same text.
pub proof fn lemma_match_rules_like(
    grammar: Grammar,
    rules: Seq<RuleView>,
    from: nat,
    a: Seq<char>,
    i: nat,
    b: Seq<char>,
    j: nat,
    depth: nat,
)
    requires
        grammar_answers_alike(grammar, a, b),
        rules_answer_alike(rules, a, b),
        i <= a.len(),
        j <= b.len(),
        same_text(a, i as int, b, j as int),
    ensures
        like_collected(
            a,
            match_rules(grammar, rules, from, a, i, depth),
            b,
            match_rules(grammar, rules, from, b, j, depth),
        ),
    decreases depth, 1nat, rules.len() - from,
{
    if from < rules.len() {
        let at_a = skip_whitespace(a, i as int) as nat;
        let at_b = skip_whitespace(b, j as int) as nat;
        lemma_same_text_behind_whitespace(a, i, b, j);
        lemma_rule_outcome_like(grammar, rules[from as int], a, at_a, b, at_b, depth);
        let first = rule_outcome(grammar, rules[from as int], a, at_a, depth);
        let second = rule_outcome(grammar, rules[from as int], b, at_b, depth);
        if let Ok(Some((node, end))) = first {
            if let Ok(Some((other, other_end))) = second {
                lemma_match_rules_like(grammar, rules, from + 1, a, end, b, other_end, depth);
            }
        }
    }
}

/// One rule matches alike at two offsets where a token can begin and from
/// which the inputs hold the same text.
pub proof fn lemma_rule_outcome_like(
    grammar: Grammar,
    rule: RuleView,
    a: Seq<char>,
    at_a: nat,
    b: Seq<char>,
    at_b: nat,
    depth: nat,
)
    requires
        grammar_answers_alike(grammar, a, b),
        rule_answers_alike(rule, a, b),
        at_token(a, at_a),
        at_token(b, at_b),
        same_text(a, at_a as int, b, at_b as int),
    ensures
        like(
            a,
            rule_outcome(grammar, rule, a, at_a, depth),
            b,
            rule_outcome(grammar, rule, b, at_b, depth),
        ),
    decreases depth, 0nat, 1nat,
{
    match rule {
        RuleView::NonTerminal(key) => {
            lemma_resolve_like(grammar, key, a, at_a, b, at_b, depth);
        },
        RuleView::Terminal(matcher) => {
            assert(like_answer(a, matcher(a, at_a), b, matcher(b, at_b)));
        },
    }
}

/// Whitespace between tokens: two inputs that hold the same characters once
/// whitespace is left out, and do not end in whitespace, parse to the same
/// tree or fail in the same way, in a grammar whose matchers answer alike
/// on the two. A whitespace run may stand in one input where the other has
/// none. Only the offset that `TrailingCharacters` reports can differ.
pub proof fn whitespace_between_tokens(
    grammar: Grammar,
    depth: nat,
    key: Seq<char>,
    a: Seq<char>,
    b: Seq<char>,
)
    requires
        grammar_answers_alike(grammar, a, b),
        same_text(a, 0, b, 0),
        ends_solid(a),
        ends_solid(b),
    ensures
        match (parse_outcome(grammar, depth, key, a), parse_outcome(grammar, depth, key, b)) {
            (Ok(tree), Ok(other)) => tree == other,
            (Err(Failure::TrailingCharacters(_)), Err(Failure::TrailingCharacters(_))) => true,
            (Err(failure), Err(other)) => failure == other,
            _ => false,
        },
{
    let start_a = skip_whitespace(a, 0) as nat;
    let start_b = skip_whitespace(b, 0) as nat;
    lemma_same_text_behind_whitespace(a, 0, b, 0);
    if start_a < a.len() {
        lemma_resolve_like(grammar, key, a, start_a, b, start_b, depth);
        let first = resolve(grammar, key, a, start_a, depth);
        let second = resolve(grammar, key, b, start_b, depth);
        if let Ok(Some((node, end))) = first {
            if let Ok(Some((other, other_end))) = second {
                lemma_same_text_at_the_end(a, end, b, other_end);
            }
        }
    }
}

/// Whether the literal, where it stands in one input at an offset, has its
/// characters standing together in the other at the offset that goes with
/// it.
pub open spec fn literal_stands_together(
    literal: Seq<char>,
    a: Seq<char>,
    i: nat,
    b: Seq<char>,
    j: nat,
) -> bool {
    &&& occurs_at(a, i, literal) ==> solid(b, j as int, literal.len() as int)
    &&& occurs_at(b, j, literal) ==> solid(a, i as int, literal.len() as int)
}

/// Whether the literal is split by whitespace nowhere: wherever it stands in
/// one of the two inputs, its characters stand together in the other.
pub open spec fn literal_is_not_split(literal: Seq<char>, a: Seq<char>, b: Seq<char>) -> bool {
    forall|i: nat, j: nat|
        at_token(a, i) && at_token(b, j) && #[trigger] same_text(a, i as int, b, j as int)
            ==> literal_stands_together(literal, a, i, b, j)
}

/// The matcher of a literal without whitespace answers alike on two inputs
/// in which whitespace splits the literal nowhere.
pub proof fn lemma_token_answers_alike(literal: Seq<char>, a: Seq<char>, b: Seq<char>)
    requires
        forall|k: int| 0 <= k < literal.len() ==> !is_space(#[trigger] literal[k]),
        literal_is_not_split(literal, a, b),
    ensures
        answers_alike(|input: Seq<char>, offset: nat| token_match(literal, input, offset), a, b),
{
    let matcher = |input: Seq<char>, offset: nat| token_match(literal, input, offset);
    let width = literal.len() as int;
    assert forall|i: nat, j: nat|
        #![trigger matcher(a, i), matcher(b, j)]
        at_token(a, i) && at_token(b, j) && same_text(a, i as int, b, j as int) implies like_answer(
        a,
        matcher(a, i),
        b,
        matcher(b, j),
    ) by {
        assert(literal_stands_together(literal, a, i, b, j));
        if occurs_at(a, i, literal) {
            assert forall|k: int| i <= k < i + width implies !is_space(#[trigger] a[k]) by {
                assert(a.subrange(i as int, i + width)[k - i] == a[k]);
            }
            lemma_same_text_solid(a, i as int, b, j as int, width);
        }
        if occurs_at(b, j, literal) {
            assert forall|k: int| j <= k < j + width implies !is_space(#[trigger] b[k]) by {
                assert(b.subrange(j as int, j + width)[k - j] == b[k]);
            }
            lemma_same_text_solid(a, i as int, b, j as int, width);
        }
    }
}

/// No whitespace can split a literal of one character.
pub proof fn lemma_single_character_is_not_split(c: char, a: Seq<char>, b: Seq<char>)
    requires
        !is_space(c),
    ensures
        literal_is_not_split(seq![c], a, b),
{
    let literal = seq![c];
    assert forall|i: nat, j: nat|
        at_token(a, i) && at_token(b, j) && #[trigger] same_text(
            a,
            i as int,
            b,
            j as int,
        ) implies literal_stands_together(literal, a, i, b, j) by {
        if occurs_at(a, i, literal) {
            assert(a.subrange(i as int, i as int + 1)[0] == c);
        }
        if occurs_at(b, j, literal) {
            assert(b.subrange(j as int, j as int + 1)[0] == c);
        }
    }
}

/// Whether the runs of `class` that begin at the two offsets stand together
/// in the other input too.
pub open spec fn runs_stand_together(
    class: CharClass,
    a: Seq<char>,
    i: nat,
    b: Seq<char>,
    j: nat,
) -> bool {
    &&& solid(b, j as int, run_end(a, i as int, class) - i)
    &&& solid(a, i as int, run_end(b, j as int, class) - j)
}

/// Whether whitespace splits a run of `class` nowhere: wherever one begins
/// in one of the two inputs, as many characters stand together in the
/// other.
pub open spec fn runs_are_not_split(class: CharClass, a: Seq<char>, b: Seq<char>) -> bool {
    forall|i: nat, j: nat|
        at_token(a, i) && at_token(b, j) && #[trigger] same_text(a, i as int, b, j as int)
            ==> runs_stand_together(class, a, i, b, j)
}

/// A run is at least as long as a stretch of characters of its class.
pub proof fn lemma_run_covers(s: Seq<char>, i: int, class: CharClass, width: int)
    requires
        0 <= i,
        0 <= width,
        i + width <= s.len(),
        forall|k: int| i <= k < i + width ==> in_class(class, #[trigger] s[k]),
    ensures
        i + width <= run_end(s, i, class),
{
    lemma_run_end_is_run_end(s, i, class);
    let end = run_end(s, i, class);
    if end < i + width {
        assert(in_class(class, s[end]));
    }
}

/// Where the same text follows two offsets and the runs of a class that
/// holds no whitespace stand together in both inputs, the two runs are the
/// same characters, and the same text follows them.
pub proof fn lemma_runs_alike(class: CharClass, a: Seq<char>, i: nat, b: Seq<char>, j: nat)
    requires
        forall|c: char| in_class(class, c) ==> !is_space(c),
        i <= a.len(),
        j <= b.len(),
        same_text(a, i as int, b, j as int),
        runs_stand_together(class, a, i, b, j),
    ensures
        i <= run_end(a, i as int, class) <= a.len(),
        j <= run_end(b, j as int, class) <= b.len(),
        run_end(a, i as int, class) - i == run_end(b, j as int, class) - j,
        a.subrange(i as int, run_end(a, i as int, class)) == b.subrange(
            j as int,
            run_end(b, j as int, class),
        ),
        same_text(a, run_end(a, i as int, class), b, run_end(b, j as int, class)),
{
    lemma_run_end_is_run_end(a, i as int, class);
    lemma_run_end_is_run_end(b, j as int, class);
    let width = run_end(a, i as int, class) - i;
    let other_width = run_end(b, j as int, class) - j;
    assert(solid(a, i as int, width)) by {
        assert forall|k: int| i <= k < i + width implies !is_space(#[trigger] a[k]) by {
            assert(in_class(class, a[k]));
        }
    }
    assert(solid(b, j as int, other_width)) by {
        assert forall|k: int| j <= k < j + other_width implies !is_space(#[trigger] b[k]) by {
            assert(in_class(class, b[k]));
        }
    }
    lemma_same_text_solid(a, i as int, b, j as int, width);
    assert forall|k: int| j <= k < j + width implies in_class(class, #[trigger] b[k]) by {
        assert(b.subrange(j as int, j + width)[k - j] == a.subrange(i as int, i + width)[k - j]);
        assert(a.subrange(i as int, i + width)[k - j] == a[i + (k - j)]);
    }
    lemma_run_covers(b, j as int, class, width);
    lemma_same_text_solid(a, i as int, b, j as int, other_width);
    assert forall|k: int| i <= k < i + other_width implies in_class(class, #[trigger] a[k]) by {
        assert(a.subrange(i as int, i + other_width)[k - i] == b.subrange(
            j as int,
            j + other_width,
        )[k - i]);
        assert(b.subrange(j as int, j + other_width)[k - i] == b[j + (k - i)]);
    }
    lemma_run_covers(a, i as int, class, other_width);
}

/// The matcher for words answers alike on two inputs in which whitespace
/// splits no word.
pub proof fn lemma_word_answers_alike(a: Seq<char>, b: Seq<char>)
    requires
        runs_are_not_split(CharClass::NonSpace, a, b),
    ensures
        answers_alike(|input: Seq<char>, offset: nat| word_match(input, offset), a, b),
{
    let matcher = |input: Seq<char>, offset: nat| word_match(input, offset);
    assert forall|i: nat, j: nat|
        #![trigger matcher(a, i), matcher(b, j)]
        at_token(a, i) && at_token(b, j) && same_text(a, i as int, b, j as int) implies like_answer(
        a,
        matcher(a, i),
        b,
        matcher(b, j),
    ) by {
        assert(runs_stand_together(CharClass::NonSpace, a, i, b, j));
        lemma_runs_alike(CharClass::NonSpace, a, i, b, j);
    }
}

/// The matcher for unsigned integers answers alike on two inputs in which
/// whitespace splits no run of digits.
pub proof fn lemma_unsigned_answers_alike(a: Seq<char>, b: Seq<char>)
    requires
        runs_are_not_split(CharClass::Digit, a, b),
    ensures
        answers_alike(|input: Seq<char>, offset: nat| unsigned_match(input, offset), a, b),
{
    let matcher = |input: Seq<char>, offset: nat| unsigned_match(input, offset);
    assert forall|i: nat, j: nat|
        #![trigger matcher(a, i), matcher(b, j)]
        at_token(a, i) && at_token(b, j) && same_text(a, i as int, b, j as int) implies like_answer(
        a,
        matcher(a, i),
        b,
        matcher(b, j),
    ) by {
        assert(runs_stand_together(CharClass::Digit, a, i, b, j));
        lemma_runs_alike(CharClass::Digit, a, i, b, j);
    }
}

/// The matcher for signed integers answers alike on two inputs in which
/// whitespace splits no run of digits.
pub proof fn lemma_signed_answers_alike(a: Seq<char>, b: Seq<char>)
    requires
        runs_are_not_split(CharClass::Digit, a, b),
    ensures
        answers_alike(|input: Seq<char>, offset: nat| signed_match(input, offset), a, b),
{
    let matcher = |input: Seq<char>, offset: nat| signed_match(input, offset);
    assert forall|i: nat, j: nat|
        #![trigger matcher(a, i), matcher(b, j)]
        at_token(a, i) && at_token(b, j) && same_text(a, i as int, b, j as int) implies like_answer(
        a,
        matcher(a, i),
        b,
        matcher(b, j),
    ) by {
        assert(runs_stand_together(CharClass::Digit, a, i, b, j));
        lemma_runs_alike(CharClass::Digit, a, i, b, j);
    }
}

/// A terminal rule answers alike on two inputs if what its matcher
/// computes does.
pub proof fn lemma_terminal_answers_alike(
    rule: Rule<'_>,
    matcher: MatchFn,
    a: Seq<char>,
    b: Seq<char>,
)
    requires
        is_terminal_of(rule, matcher),
        answers_alike(matcher, a, b),
    ensures
        rule_answers_alike(rule@, a, b),
{
    let held = rule@->Terminal_0;
    assert forall|i: nat, j: nat|
        #![trigger held(a, i), held(b, j)]
        at_token(a, i) && at_token(b, j) && same_text(a, i as int, b, j as int) implies like_answer(
        a,
        held(a, i),
        b,
        held(b, j),
    ) by {
        assert(held(a, i) == matcher(a, i));
        assert(held(b, j) == matcher(b, j));
    }
}

/// A table made of entries whose terminals answer alike on two inputs is a
/// grammar whose terminals do.
pub proof fn lemma_table_answers_alike(
    entries: Seq<(ParseKey<'_>, AlternativeRules<'_>)>,
    a: Seq<char>,
    b: Seq<char>,
)
    requires
        forall|k: int|
            0 <= k < entries.len() ==> alternatives_answer_alike(
                alternatives_view(#[trigger] entries[k].1),
                a,
                b,
            ),
    ensures
        grammar_answers_alike(table_of(entries), a, b),
    decreases entries.len(),
{
    if entries.len() > 0 {
        let earlier = entries.drop_last();
        assert forall|k: int| 0 <= k < earlier.len() implies alternatives_answer_alike(
            alternatives_view(#[trigger] earlier[k].1),
            a,
            b,
        ) by {
            assert(earlier[k] == entries[k]);
        }
        lemma_table_answers_alike(earlier, a, b);
        assert(alternatives_answer_alike(
            alternatives_view(entries[entries.len() - 1].1),
            a,
            b,
        ));
    }
}

} // verus!
