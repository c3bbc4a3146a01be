//! Whitespace between words does not matter to a parse: two inputs that are
//! the same up to the lengths of their whitespace runs give the same tree.
//!
//! This holds of grammars whose matchers read no further than the word at
//! the offset, which is proved here of the built-in matchers for tokens,
//! words and integers. Whitespace stands at the same places in the two
//! inputs; `spacing` holds the law for a run that one input has and the
//! other lacks.

use crate::grammar::{
    AlternativeRules, Grammar, MatchFn, ParseKey, Rule, RuleView, alternatives_view,
};
use crate::parser::table_of;
use crate::primitives::{
    is_terminal_of, occurs_at, signed_match, token_match, unsigned_match, word_match,
};
use crate::remainder::same_answer;
use crate::scan::{
    CharClass, in_class, is_space, lemma_run_end_is_run_end, lemma_run_end_unique, run_end,
    skip_whitespace,
};
use crate::semantics::{
    Collected, Failure, Outcome, first_match, match_rules, match_sequence, parse_outcome,
    resolve, rule_outcome,
};
use vstd::prelude::*;

verus! {

/// Whether `a` from `i` on and `b` from `j` on are the same up to the
/// lengths of their whitespace runs: they hold the same characters that are
/// no whitespace, in the same order, and whitespace, of whatever length and
/// kind, between the same two of them, in front of them and behind them.
pub open spec fn same_words(a: Seq<char>, i: int, b: Seq<char>, j: int) -> bool
    decreases a.len() - i,
    when 0 <= i && 0 <= j
{
    if i >= a.len() || j >= b.len() {
        i >= a.len() && j >= b.len()
    } else if is_space(a[i]) || is_space(b[j]) {
        proof {
            lemma_run_end_is_run_end(a, i + 1, CharClass::Space);
        }
        is_space(a[i]) && is_space(b[j]) && same_words(
            a,
            run_end(a, i, CharClass::Space),
            b,
            run_end(b, j, CharClass::Space),
        )
    } else {
        a[i] == b[j] && same_words(a, i + 1, b, j + 1)
    }
}

/// Where the word at `i` ends: at the next whitespace, or at the end of the
/// text.
pub open spec fn word_end(s: Seq<char>, i: int) -> int {
    run_end(s, i, CharClass::NonSpace)
}

/// The word at `i`: the characters from `i` up to the next whitespace.
pub open spec fn word_at(s: Seq<char>, i: int) -> Seq<char> {
    s.subrange(i, word_end(s, i))
}

/// Texts that are the same up to whitespace stay so behind their leading
/// whitespace.
pub proof fn lemma_same_words_behind_whitespace(a: Seq<char>, i: int, b: Seq<char>, j: int)
    requires
        0 <= i <= a.len(),
        0 <= j <= b.len(),
        same_words(a, i, b, j),
    ensures
        same_words(a, skip_whitespace(a, i), b, skip_whitespace(b, j)),
{
    lemma_run_end_is_run_end(a, i, CharClass::Space);
    lemma_run_end_is_run_end(b, j, CharClass::Space);
    if i >= a.len() || j >= b.len() {
    } else if is_space(a[i]) || is_space(b[j]) {
    } else {
        assert(skip_whitespace(a, i) == i);
        assert(skip_whitespace(b, j) == j);
    }
}

/// Texts that are the same up to whitespace begin with the same word, and
/// stay the same up to whitespace behind any part of that word.
pub proof fn lemma_same_words_same_word(a: Seq<char>, i: int, b: Seq<char>, j: int, d: int)
    requires
        0 <= i <= a.len(),
        0 <= j <= b.len(),
        same_words(a, i, b, j),
        0 <= d <= word_end(a, i) - i,
    ensures
        word_at(a, i) == word_at(b, j),
        word_end(a, i) - i == word_end(b, j) - j,
        i <= word_end(a, i) <= a.len(),
        j <= word_end(b, j) <= b.len(),
        same_words(a, i + d, b, j + d),
    decreases a.len() - i,
{
    lemma_run_end_is_run_end(a, i, CharClass::NonSpace);
    lemma_run_end_is_run_end(b, j, CharClass::NonSpace);
    if i >= a.len() || j >= b.len() {
        assert(word_at(a, i) =~= word_at(b, j));
    } else if is_space(a[i]) || is_space(b[j]) {
        assert(word_at(a, i) =~= word_at(b, j));
    } else {
        if d > 0 {
            lemma_same_words_same_word(a, i + 1, b, j + 1, d - 1);
        } else {
            lemma_same_words_same_word(a, i + 1, b, j + 1, 0);
        }
        assert(word_at(a, i) =~= seq![a[i]] + word_at(a, i + 1));
        assert(word_at(b, j) =~= seq![b[j]] + word_at(b, j + 1));
    }
}

/// Whether a matcher reads no further than the word at the offset: where
/// two inputs hold the same word at two offsets, it answers the same, and
/// what it matches ends within that word.
pub open spec fn reads_one_word(matcher: MatchFn) -> bool {
    forall|a: Seq<char>, i: nat, b: Seq<char>, j: nat|
        #![trigger matcher(a, i), matcher(b, j)]
        i <= a.len() && j <= b.len() && word_at(a, i as int) == word_at(b, j as int)
            ==> same_answer(matcher(a, i), i, matcher(b, j), j, word_at(a, i as int).len())
}

/// Whether `rule`, if it is a terminal, reads no further than one word.
pub open spec fn rule_reads_words(rule: RuleView) -> bool {
    rule matches RuleView::Terminal(matcher) ==> reads_one_word(matcher)
}

/// Whether the terminals of an alternative read no further than one word.
pub open spec fn rules_read_words(rules: Seq<RuleView>) -> bool {
    forall|k: int| 0 <= k < rules.len() ==> rule_reads_words(#[trigger] rules[k])
}

/// Whether the terminals of some alternatives read no further than one word.
pub open spec fn alternatives_read_words(alternatives: Seq<Seq<RuleView>>) -> bool {
    forall|k: int| 0 <= k < alternatives.len() ==> rules_read_words(#[trigger] alternatives[k])
}

/// Whether every terminal of the grammar reads no further than one word.
pub open spec fn grammar_reads_words(grammar: Grammar) -> bool {
    forall|key: Seq<char>|
        grammar.contains_key(key) ==> alternatives_read_words(#[trigger] grammar[key])
}

/// Whether two outcomes, one on `a` and one on `b`, are the same: the same
/// node, with what follows it the same up to whitespace; no match both; or
/// the same halt.
pub open spec fn alike(a: Seq<char>, first: Outcome, b: Seq<char>, second: Outcome) -> bool {
    match (first, second) {
        (Ok(Some((node, end))), Ok(Some((other, other_end)))) => {
            &&& node == other
            &&& end <= a.len()
            &&& other_end <= b.len()
            &&& same_words(a, end as int, b, other_end as int)
        },
        (Ok(None), Ok(None)) => true,
        (Err(halt), Err(other)) => halt == other,
        _ => false,
    }
}

/// `alike`, of the nodes that the rules of an alternative collect.
pub open spec fn alike_collected(
    a: Seq<char>,
    first: Collected,
    b: Seq<char>,
    second: Collected,
) -> bool {
    match (first, second) {
        (Ok(Some((nodes, end))), Ok(Some((others, other_end)))) => {
            &&& nodes == others
            &&& end <= a.len()
            &&& other_end <= b.len()
            &&& same_words(a, end as int, b, other_end as int)
        },
        (Ok(None), Ok(None)) => true,
        (Err(halt), Err(other)) => halt == other,
        _ => false,
    }
}

/// Whether `a` from `i` on and `b` from `j` on are the same up to
/// whitespace, their leading whitespace left aside.
pub open spec fn same_words_behind_whitespace(a: Seq<char>, i: nat, b: Seq<char>, j: nat) -> bool {
    &&& i <= a.len()
    &&& j <= b.len()
    &&& same_words(a, skip_whitespace(a, i as int), b, skip_whitespace(b, j as int))
}

/// A rule resolves alike on two inputs that are the same up to whitespace.
pub proof fn lemma_resolve_alike(
    grammar: Grammar,
    key: Seq<char>,
    a: Seq<char>,
    i: nat,
    b: Seq<char>,
    j: nat,
    depth: nat,
)
    requires
        grammar_reads_words(grammar),
        same_words_behind_whitespace(a, i, b, j),
    ensures
        alike(
            a,
            resolve(grammar, key, a, i, depth),
            b,
            resolve(grammar, key, b, j, depth),
        ),
    decreases depth, 0nat, 0nat,
{
    if depth > 0 && grammar.contains_key(key) {
        lemma_first_match_alike(grammar, grammar[key], 0, a, i, b, j, (depth - 1) as nat);
    }
}

/// Alternatives tried in order come out alike on two inputs that are the
/// same up to whitespace.
pub proof fn lemma_first_match_alike(
    grammar: Grammar,
    alternatives: Seq<Seq<RuleView>>,
    from: nat,
    a: Seq<char>,
    i: nat,
    b: Seq<char>,
    j: nat,
    depth: nat,
)
    requires
        grammar_reads_words(grammar),
        alternatives_read_words(alternatives),
        same_words_behind_whitespace(a, i, b, j),
    ensures
        alike(
            a,
            first_match(grammar, alternatives, from, a, i, depth),
            b,
            first_match(grammar, alternatives, from, b, j, depth),
        ),
    decreases depth, 3nat, alternatives.len() - from,
{
    if from < alternatives.len() {
        lemma_match_sequence_alike(grammar, alternatives[from as int], a, i, b, j, depth);
        lemma_first_match_alike(grammar, alternatives, from + 1, a, i, b, j, depth);
    }
}

/// An alternative matches alike on two inputs that are the same up to
/// whitespace.
pub proof fn lemma_match_sequence_alike(
    grammar: Grammar,
    rules: Seq<RuleView>,
    a: Seq<char>,
    i: nat,
    b: Seq<char>,
    j: nat,
    depth: nat,
)
    requires
        grammar_reads_words(grammar),
        rules_read_words(rules),
        same_words_behind_whitespace(a, i, b, j),
    ensures
        alike(
            a,
            match_sequence(grammar, rules, a, i, depth),
            b,
            match_sequence(grammar, rules, b, j, depth),
        ),
    decreases depth, 2nat, 0nat,
{
    if rules.len() > 0 {
        lemma_match_rules_alike(grammar, rules, 0, a, i, b, j, depth);
    }
}

/// The rules of an alternative collect alike on two inputs that are the
/// same up to whitespace. Behind the last rule no whitespace is skipped, so
/// there the inputs are to be the same from the very offsets on.
pub proof fn lemma_match_rules_alike(
    grammar: Grammar,
    rules: Seq<RuleView>,
    from: nat,
    a: Seq<char>,
    i: nat,
    b: Seq<char>,
    j: nat,
    depth: nat,
)
    requires
        grammar_reads_words(grammar),
        rules_read_words(rules),
        from <= rules.len(),
        i <= a.len(),
        j <= b.len(),
        if from < rules.len() {
            same_words_behind_whitespace(a, i, b, j)
        } else {
            same_words(a, i as int, b, j as int)
        },
    ensures
        alike_collected(
            a,
            match_rules(grammar, rules, from, a, i, depth),
            b,
            match_rules(grammar, rules, from, b, j, depth),
        ),
    decreases depth, 1nat, rules.len() - from,
{
    if from < rules.len() {
        let at_a = skip_whitespace(a, i as int) as nat;
        let at_b = skip_whitespace(b, j as int) as nat;
        lemma_run_end_is_run_end(a, i as int, CharClass::Space);
        lemma_run_end_is_run_end(b, j as int, CharClass::Space);
        lemma_rule_outcome_alike(grammar, rules[from as int], a, at_a, b, at_b, depth);
        let first = rule_outcome(grammar, rules[from as int], a, at_a, depth);
        let second = rule_outcome(grammar, rules[from as int], b, at_b, depth);
        if let Ok(Some((node, end))) = first {
            if let Ok(Some((other, other_end))) = second {
                lemma_same_words_behind_whitespace(a, end as int, b, other_end as int);
                lemma_match_rules_alike(grammar, rules, from + 1, a, end, b, other_end, depth);
            }
        }
    }
}

/// One rule matches alike at two offsets, neither at whitespace, from which
/// the inputs are the same up to whitespace.
pub proof fn lemma_rule_outcome_alike(
    grammar: Grammar,
    rule: RuleView,
    a: Seq<char>,
    at_a: nat,
    b: Seq<char>,
    at_b: nat,
    depth: nat,
)
    requires
        grammar_reads_words(grammar),
        rule_reads_words(rule),
        at_a <= a.len(),
        at_b <= b.len(),
        skip_whitespace(a, at_a as int) == at_a,
        skip_whitespace(b, at_b as int) == at_b,
        same_words(a, at_a as int, b, at_b as int),
    ensures
        alike(
            a,
            rule_outcome(grammar, rule, a, at_a, depth),
            b,
            rule_outcome(grammar, rule, b, at_b, depth),
        ),
    decreases depth, 0nat, 1nat,
{
    match rule {
        RuleView::NonTerminal(key) => {
            lemma_resolve_alike(grammar, key, a, at_a, b, at_b, depth);
        },
        RuleView::Terminal(matcher) => {
            lemma_run_end_is_run_end(a, at_a as int, CharClass::NonSpace);
            lemma_same_words_same_word(a, at_a as int, b, at_b as int, 0);
            let width = word_at(a, at_a as int).len();
            assert(same_answer(matcher(a, at_a), at_a, matcher(b, at_b), at_b, width));
            if let Some((node, end)) = matcher(a, at_a) {
                lemma_same_words_same_word(a, at_a as int, b, at_b as int, end - at_a);
            }
        },
    }
}

/// Whitespace insensitivity: two inputs that are the same up to the lengths
/// of their whitespace runs, their leading whitespace left aside, parse to
/// the same tree or fail in the same way, in a grammar whose matchers read
/// no further than one word. Only the offset that `TrailingCharacters`
/// reports can differ.
pub proof fn whitespace_insensitivity(
    grammar: Grammar,
    depth: nat,
    key: Seq<char>,
    a: Seq<char>,
    b: Seq<char>,
)
    requires
        grammar_reads_words(grammar),
        same_words(a, skip_whitespace(a, 0), b, skip_whitespace(b, 0)),
    ensures
        match (parse_outcome(grammar, depth, key, a), parse_outcome(grammar, depth, key, b)) {
            (Ok(tree), Ok(other)) => tree == other,
            (Err(Failure::TrailingCharacters(_)), Err(Failure::TrailingCharacters(_))) => true,
            (Err(failure), Err(other)) => failure == other,
            _ => false,
        },
{
    lemma_run_end_is_run_end(a, 0, CharClass::Space);
    lemma_run_end_is_run_end(b, 0, CharClass::Space);
    let start_a = skip_whitespace(a, 0) as nat;
    let start_b = skip_whitespace(b, 0) as nat;
    if start_a < a.len() {
        lemma_resolve_alike(grammar, key, a, start_a, b, start_b, depth);
    }
}

/// A run of characters that are no whitespace lies within the word at its
/// start, and is the run of the same class in that word.
pub proof fn lemma_run_within_word(s: Seq<char>, i: int, class: CharClass)
    requires
        0 <= i <= s.len(),
        forall|c: char| in_class(class, c) ==> !is_space(c),
    ensures
        i <= run_end(s, i, class) <= word_end(s, i) <= s.len(),
        run_end(s, i, class) - i == run_end(word_at(s, i), 0, class),
        s.subrange(i, run_end(s, i, class)) == word_at(s, i).subrange(
            0,
            run_end(word_at(s, i), 0, class),
        ),
{
    let end = run_end(s, i, class);
    let stop = word_end(s, i);
    let word = word_at(s, i);
    lemma_run_end_is_run_end(s, i, class);
    lemma_run_end_is_run_end(s, i, CharClass::NonSpace);
    if stop < end {
        assert(in_class(class, s[stop]));
    }
    assert forall|k: int| 0 <= k < end - i implies in_class(class, #[trigger] word[k]) by {
        assert(word[k] == s[i + k]);
    }
    if end - i < word.len() {
        assert(word[end - i] == s[end]);
    }
    lemma_run_end_unique(word, 0, class, end - i);
    assert(s.subrange(i, end) =~= word.subrange(0, end - i));
}

/// The matcher for words reads no further than one word.
pub proof fn lemma_word_reads_one_word()
    ensures
        reads_one_word(|input: Seq<char>, offset: nat| word_match(input, offset)),
{
    let matcher = |input: Seq<char>, offset: nat| word_match(input, offset);
    assert forall|a: Seq<char>, i: nat, b: Seq<char>, j: nat|
        #![trigger matcher(a, i), matcher(b, j)]
        i <= a.len() && j <= b.len() && word_at(a, i as int) == word_at(
            b,
            j as int,
        ) implies same_answer(matcher(a, i), i, matcher(b, j), j, word_at(a, i as int).len()) by {
        lemma_run_end_is_run_end(a, i as int, CharClass::NonSpace);
        lemma_run_end_is_run_end(b, j as int, CharClass::NonSpace);
    }
}

/// The matcher for unsigned integers reads no further than one word.
pub proof fn lemma_unsigned_reads_one_word()
    ensures
        reads_one_word(|input: Seq<char>, offset: nat| unsigned_match(input, offset)),
{
    let matcher = |input: Seq<char>, offset: nat| unsigned_match(input, offset);
    assert forall|a: Seq<char>, i: nat, b: Seq<char>, j: nat|
        #![trigger matcher(a, i), matcher(b, j)]
        i <= a.len() && j <= b.len() && word_at(a, i as int) == word_at(
            b,
            j as int,
        ) implies same_answer(matcher(a, i), i, matcher(b, j), j, word_at(a, i as int).len()) by {
        lemma_run_within_word(a, i as int, CharClass::Digit);
        lemma_run_within_word(b, j as int, CharClass::Digit);
    }
}

/// The matcher for signed integers reads no further than one word.
pub proof fn lemma_signed_reads_one_word()
    ensures
        reads_one_word(|input: Seq<char>, offset: nat| signed_match(input, offset)),
{
    let matcher = |input: Seq<char>, offset: nat| signed_match(input, offset);
    assert forall|a: Seq<char>, i: nat, b: Seq<char>, j: nat|
        #![trigger matcher(a, i), matcher(b, j)]
        i <= a.len() && j <= b.len() && word_at(a, i as int) == word_at(
            b,
            j as int,
        ) implies same_answer(matcher(a, i), i, matcher(b, j), j, word_at(a, i as int).len()) by {
        lemma_run_within_word(a, i as int, CharClass::Digit);
        lemma_run_within_word(b, j as int, CharClass::Digit);
    }
}

/// A literal without whitespace stands at an offset exactly where the word
/// at that offset begins with it.
pub proof fn lemma_literal_within_word(literal: Seq<char>, s: Seq<char>, i: nat)
    requires
        i <= s.len(),
        forall|k: int| 0 <= k < literal.len() ==> !is_space(#[trigger] literal[k]),
    ensures
        occurs_at(s, i, literal) == occurs_at(word_at(s, i as int), 0, literal),
        occurs_at(s, i, literal) ==> literal.len() <= word_at(s, i as int).len(),
{
    let word = word_at(s, i as int);
    let stop = word_end(s, i as int);
    lemma_run_end_is_run_end(s, i as int, CharClass::NonSpace);
    if occurs_at(s, i, literal) {
        let part = s.subrange(i as int, (i + literal.len()) as int);
        if stop < i + literal.len() {
            assert(part[stop - i] == s[stop]);
            assert(!is_space(literal[stop - i]));
        }
        assert(word.subrange(0, literal.len() as int) =~= part);
    }
    if occurs_at(word, 0, literal) {
        assert(s.subrange(i as int, (i + literal.len()) as int) =~= word.subrange(
            0,
            literal.len() as int,
        ));
    }
}

/// The matcher for a literal without whitespace reads no further than one
/// word.
pub proof fn lemma_token_reads_one_word(literal: Seq<char>)
    requires
        forall|k: int| 0 <= k < literal.len() ==> !is_space(#[trigger] literal[k]),
    ensures
        reads_one_word(|input: Seq<char>, offset: nat| token_match(literal, input, offset)),
{
    let matcher = |input: Seq<char>, offset: nat| token_match(literal, input, offset);
    assert forall|a: Seq<char>, i: nat, b: Seq<char>, j: nat|
        #![trigger matcher(a, i), matcher(b, j)]
        i <= a.len() && j <= b.len() && word_at(a, i as int) == word_at(
            b,
            j as int,
        ) implies same_answer(matcher(a, i), i, matcher(b, j), j, word_at(a, i as int).len()) by {
        lemma_literal_within_word(literal, a, i);
        lemma_literal_within_word(literal, b, j);
    }
}

/// A terminal rule reads no further than one word if what its matcher
/// computes does not.
pub proof fn lemma_terminal_reads_words(rule: Rule<'_>, matcher: MatchFn)
    requires
        is_terminal_of(rule, matcher),
        reads_one_word(matcher),
    ensures
        rule_reads_words(rule@),
{
    let held = rule@->Terminal_0;
    assert forall|a: Seq<char>, i: nat, b: Seq<char>, j: nat|
        #![trigger held(a, i), held(b, j)]
        i <= a.len() && j <= b.len() && word_at(a, i as int) == word_at(
            b,
            j as int,
        ) implies same_answer(held(a, i), i, held(b, j), j, word_at(a, i as int).len()) by {
        assert(held(a, i) == matcher(a, i));
        assert(held(b, j) == matcher(b, j));
    }
}

/// A table made of entries whose terminals read no further than one word
/// is a grammar whose terminals do.
pub proof fn lemma_table_reads_words(entries: Seq<(ParseKey<'_>, AlternativeRules<'_>)>)
    requires
        forall|k: int|
            0 <= k < entries.len() ==> alternatives_read_words(
                alternatives_view(#[trigger] entries[k].1),
            ),
    ensures
        grammar_reads_words(table_of(entries)),
    decreases entries.len(),
{
    if entries.len() > 0 {
        let earlier = entries.drop_last();
        assert forall|k: int| 0 <= k < earlier.len() implies alternatives_read_words(
            alternatives_view(#[trigger] earlier[k].1),
        ) by {
            assert(earlier[k] == entries[k]);
        }
        lemma_table_reads_words(earlier);
        assert(alternatives_read_words(alternatives_view(entries[entries.len() - 1].1)));
    }
}

} // verus!
