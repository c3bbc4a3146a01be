//! The terminal matchers that come with the library: a literal token, a
//! word, an unsigned and a signed integer, a decimal numeral.
//!
//! None of them skips whitespace: the engine does that before it calls one.
//! At the end of the input, and at an offset behind it, none matches but the
//! empty literal at the very end.

use crate::grammar::{MatchFn, PrintableCallback, Rule};
use crate::node::{Node, NodeView, match_view};
use crate::scan::{CharClass, is_digit, run_end, scan_run};
use regex::Regex;
use vstd::prelude::*;

verus! {

/// The number that a run of ASCII digits writes in base ten.
pub open spec fn decimal_value(digits: Seq<char>) -> nat
    decreases digits.len(),
{
    if digits.len() == 0 {
        0
    } else {
        10 * decimal_value(digits.drop_last()) + (digits.last() as nat - 0x30) as nat
    }
}

/// Whether every character of `text` is an ASCII digit.
pub open spec fn all_digits(text: Seq<char>) -> bool {
    forall|k: int| 0 <= k < text.len() ==> is_digit(#[trigger] text[k])
}

/// Whether `text` stands in `input` at `offset`.
pub open spec fn occurs_at(input: Seq<char>, offset: nat, text: Seq<char>) -> bool {
    &&& offset + text.len() <= input.len()
    &&& input.subrange(offset as int, (offset + text.len()) as int) == text
}

/// A literal token matches where the input goes on with `literal`; the node
/// is the token and the offset moves behind it.
pub open spec fn token_match(literal: Seq<char>, input: Seq<char>, offset: nat) -> Option<
    (NodeView, nat),
> {
    if occurs_at(input, offset, literal) {
        Some((NodeView::Token(literal), offset + literal.len()))
    } else {
        None
    }
}

/// A word is the maximal run of characters that are no whitespace; an empty
/// run is no word.
pub open spec fn word_match(input: Seq<char>, offset: nat) -> Option<(NodeView, nat)> {
    let end = run_end(input, offset as int, CharClass::NonSpace);
    if end == offset {
        None
    } else {
        Some((NodeView::LiteralStr(input.subrange(offset as int, end)), end as nat))
    }
}

/// An unsigned integer is the maximal run of ASCII digits; it matches where
/// the run is not empty and its value fits 64 bits.
pub open spec fn unsigned_match(input: Seq<char>, offset: nat) -> Option<(NodeView, nat)> {
    let end = run_end(input, offset as int, CharClass::Digit);
    let value = decimal_value(input.subrange(offset as int, end));
    if end == offset || value > u64::MAX {
        None
    } else {
        Some((NodeView::LiteralUnsigned(value as u64), end as nat))
    }
}

/// A signed integer is the maximal run of ASCII digits, without a sign; it
/// matches where the run is not empty and its value fits a signed 64-bit
/// integer.
pub open spec fn signed_match(input: Seq<char>, offset: nat) -> Option<(NodeView, nat)> {
    let end = run_end(input, offset as int, CharClass::Digit);
    let value = decimal_value(input.subrange(offset as int, end));
    if end == offset || value > i64::MAX {
        None
    } else {
        Some((NodeView::LiteralSigned(value as i64), end as nat))
    }
}

/// Where the digits before the point begin: behind a leading sign, if any.
pub open spec fn digits_start(text: Seq<char>) -> int {
    if text.len() > 0 && (text[0] == '+' || text[0] == '-') {
        1
    } else {
        0
    }
}

/// Whether `text` is a decimal numeral: an optional sign, one ASCII digit or
/// more, a point, one ASCII digit or more, and nothing else.
pub open spec fn is_decimal_lexeme(text: Seq<char>) -> bool {
    let start = digits_start(text);
    let point = run_end(text, start, CharClass::Digit);
    let end = run_end(text, point + 1, CharClass::Digit);
    &&& start < point < text.len()
    &&& text[point] == '.'
    &&& point + 1 < end
    &&& end == text.len()
}

/// The regular expression of a decimal numeral at the start of a text.
pub const FLOAT_PATTERN: &'static str = "^[+-]?\\d+\\.\\d+";

/// The text of the leftmost match of the regular expression `pattern` in
/// `text`, or `None` where it matches nowhere or is no regular expression.
pub uninterp spec fn regex_first_match(pattern: Seq<char>, text: Seq<char>) -> Option<Seq<char>>;

/// The text of an optional slice.
pub open spec fn text_view(found: Option<&str>) -> Option<Seq<char>> {
    match found {
        Some(text) => Some(text@),
        None => None,
    }
}

/// What the decimal matcher makes of the match that the regular expression
/// gave on the input from `offset` on: a numeral where that match lies at
/// `offset` and is written in ASCII digits, nothing else.
pub open spec fn float_outcome(input: Seq<char>, offset: nat, found: Option<Seq<char>>) -> Option<
    (NodeView, nat),
> {
    match found {
        Some(lexeme) => if occurs_at(input, offset, lexeme) && is_decimal_lexeme(lexeme) {
            Some((NodeView::LiteralFloat(lexeme), offset + lexeme.len()))
        } else {
            None
        },
        None => None,
    }
}

/// A decimal numeral: what `float_outcome` makes of the leftmost match of
/// `FLOAT_PATTERN` in the input from `offset` on.
pub open spec fn float_match(input: Seq<char>, offset: nat) -> Option<(NodeView, nat)> {
    float_outcome(input, offset, regex_first_match(FLOAT_PATTERN@, input.skip(offset as int)))
}

/// The value of a shorter run of digits is no larger.
pub proof fn lemma_decimal_value_prefix(digits: Seq<char>, k: int)
    requires
        0 <= k <= digits.len(),
    ensures
        decimal_value(digits.take(k)) <= decimal_value(digits),
    decreases digits.len(),
{
    if k == digits.len() {
        assert(digits.take(k) =~= digits);
    } else {
        assert(digits.take(k) =~= digits.drop_last().take(k));
        lemma_decimal_value_prefix(digits.drop_last(), k);
    }
}

/// Reads the digits of `expr` between `from` and `to` as a number in base
/// ten; `None` where it does not fit 64 bits.
pub fn digits_value(expr: &str, from: usize, to: usize) -> (value: Option<u64>)
    requires
        from <= to <= expr@.len(),
        all_digits(expr@.subrange(from as int, to as int)),
    ensures
        match value {
            Some(v) => v == decimal_value(expr@.subrange(from as int, to as int)),
            None => decimal_value(expr@.subrange(from as int, to as int)) > u64::MAX,
        },
{
    let ghost digits = expr@.subrange(from as int, to as int);
    let mut acc: u64 = 0;
    let mut i: usize = from;
    proof {
        assert(digits.take(0) =~= Seq::<char>::empty());
    }
    while i < to
        invariant
            from <= i <= to <= expr@.len(),
            digits == expr@.subrange(from as int, to as int),
            all_digits(digits),
            acc == decimal_value(digits.take(i - from)),
        decreases to - i,
    {
        let c = expr.get_char(i);
        proof {
            let next = digits.take(i - from + 1);
            assert(next.drop_last() =~= digits.take(i - from));
            assert(next.last() == digits[i - from]);
            assert(digits[i - from] == c);
            assert(is_digit(c));
            lemma_decimal_value_prefix(digits, i - from + 1);
        }
        let digit: u64 = (c as u32 - 0x30) as u64;
        let shifted = match acc.checked_mul(10) {
            Some(shifted) => shifted,
            None => {
                return None;
            },
        };
        acc = match shifted.checked_add(digit) {
            Some(sum) => sum,
            None => {
                return None;
            },
        };
        i += 1;
    }
    proof {
        assert(digits.take(to - from) =~= digits);
    }
    Some(acc)
}

/// Looks for `text` in `expr` at `offset` and returns the offset behind it,
/// or `None` where the input goes on otherwise or ends before `offset`.
pub fn end_of_text_at(expr: &str, offset: usize, text: &str) -> (end: Option<usize>)
    ensures
        end is Some == occurs_at(expr@, offset as nat, text@),
        end matches Some(e) ==> e == offset + text@.len(),
{
    let len: usize = expr.unicode_len();
    let width: usize = text.unicode_len();
    if offset > len || width > len - offset {
        return None;
    }
    let mut k: usize = 0;
    while k < width
        invariant
            len == expr@.len(),
            width == text@.len(),
            offset + width <= len,
            k <= width,
            forall|j: int| 0 <= j < k ==> expr@[offset + j] == text@[j],
        decreases width - k,
    {
        if expr.get_char(offset + k) != text.get_char(k) {
            proof {
                let part = expr@.subrange(offset as int, offset + width);
                assert(part[k as int] != text@[k as int]);
            }
            return None;
        }
        k += 1;
    }
    proof {
        assert(expr@.subrange(offset as int, offset + width) =~= text@);
    }
    Some(offset + width)
}

/// Matches the literal `literal` at `offset`.
pub fn parse_token<'a>(literal: &str, expr: &'a str, offset: usize) -> (found: Option<
    (Node<'a>, usize),
>)
    ensures
        match_view(found) == token_match(literal@, expr@, offset as nat),
        found matches Some((_, end)) ==> offset <= end <= expr@.len(),
{
    match end_of_text_at(expr, offset, literal) {
        Some(new_offset) => Some(
            (Node::Token(expr.substring_char(offset, new_offset)), new_offset),
        ),
        None => None,
    }
}

/// Matches a word at `offset`: everything up to the next whitespace.
pub fn parse_word<'a>(expr: &'a str, offset: usize) -> (found: Option<(Node<'a>, usize)>)
    ensures
        match_view(found) == word_match(expr@, offset as nat),
        found matches Some((_, end)) ==> offset < end <= expr@.len(),
{
    let new_offset = scan_run(expr, offset, CharClass::NonSpace);
    if new_offset != offset {
        Some((Node::LiteralStr(expr.substring_char(offset, new_offset)), new_offset))
    } else {
        None
    }
}

/// Matches an unsigned integer at `offset`.
pub fn parse_unsigned<'a>(expr: &'a str, offset: usize) -> (found: Option<(Node<'a>, usize)>)
    ensures
        match_view(found) == unsigned_match(expr@, offset as nat),
        found matches Some((_, end)) ==> offset < end <= expr@.len(),
{
    let new_offset = scan_run(expr, offset, CharClass::Digit);
    if new_offset != offset {
        match digits_value(expr, offset, new_offset) {
            Some(number) => Some((Node::LiteralUnsigned(number), new_offset)),
            None => None,
        }
    } else {
        None
    }
}

/// Matches a signed integer at `offset`. It reads digits only: a sign in
/// front of them is a token of the grammar.
pub fn parse_signed<'a>(expr: &'a str, offset: usize) -> (found: Option<(Node<'a>, usize)>)
    ensures
        match_view(found) == signed_match(expr@, offset as nat),
        found matches Some((_, end)) ==> offset < end <= expr@.len(),
{
    let new_offset = scan_run(expr, offset, CharClass::Digit);
    if new_offset != offset {
        match digits_value(expr, offset, new_offset) {
            Some(number) => if number <= 0x7fff_ffff_ffff_ffff {
                Some((Node::LiteralSigned(number as i64), new_offset))
            } else {
                None
            },
            None => None,
        }
    } else {
        None
    }
}

/// Searches `text` for the regular expression `pattern`: compiles it with
/// `regex::Regex::new`, calls `regex::Regex::find` on `text`, and hands back
/// the text of the match, `regex::Match::as_str`. Where `Regex::new` rejects
/// the pattern the answer is `None`, as where nothing matches.
///
/// Believed, not proved: that the answer depends on the two texts alone. The
/// contract gives it the name `regex_first_match` and says nothing of what a
/// match looks like.
#[verifier::external_body]
fn leftmost_match<'t>(pattern: &str, text: &'t str) -> (found: Option<&'t str>)
    ensures
        text_view(found) == regex_first_match(pattern@, text@),
{
    match Regex::new(pattern) {
        Ok(expression) => match expression.find(text) {
            Some(found) => Some(found.as_str()),
            None => None,
        },
        Err(_) => None,
    }
}

/// Tells whether `text` is a decimal numeral.
pub fn is_decimal(text: &str) -> (yes: bool)
    ensures
        yes == is_decimal_lexeme(text@),
{
    let len: usize = text.unicode_len();
    let mut start: usize = 0;
    if len > 0 {
        let first = text.get_char(0);
        if first == '+' || first == '-' {
            start = 1;
        }
    }
    let point = scan_run(text, start, CharClass::Digit);
    if point == start || point >= len {
        return false;
    }
    if text.get_char(point) != '.' {
        return false;
    }
    let end = scan_run(text, point + 1, CharClass::Digit);
    point + 1 < end && end == len
}

/// Makes a numeral of what the regular expression found on the input from
/// `offset` on.
pub fn float_from_match<'a>(expr: &'a str, offset: usize, found: Option<&str>) -> (numeral: Option<
    (Node<'a>, usize),
>)
    ensures
        match_view(numeral) == float_outcome(expr@, offset as nat, text_view(found)),
        numeral matches Some((_, end)) ==> offset < end <= expr@.len(),
{
    match found {
        Some(lexeme) => match end_of_text_at(expr, offset, lexeme) {
            Some(new_offset) => if is_decimal(lexeme) {
                Some((Node::LiteralFloat(expr.substring_char(offset, new_offset)), new_offset))
            } else {
                None
            },
            None => None,
        },
        None => None,
    }
}

/// Matches a decimal numeral at `offset`: an optional sign, digits, a point,
/// digits.
pub fn parse_float<'a>(expr: &'a str, offset: usize) -> (found: Option<(Node<'a>, usize)>)
    ensures
        match_view(found) == float_match(expr@, offset as nat),
        found matches Some((_, end)) ==> offset < end <= expr@.len(),
{
    let len: usize = expr.unicode_len();
    if offset > len {
        return None;
    }
    let rest = expr.substring_char(offset, len);
    proof {
        assert(rest@ =~= expr@.skip(offset as int));
    }
    float_from_match(expr, offset, leftmost_match(FLOAT_PATTERN, rest))
}

/// The built-in matchers as values that a rule can hold.
pub enum Primitive {
    /// Matches the literal that it holds.
    Token(String),
    /// Matches a word.
    Word,
    /// Matches an unsigned integer.
    Unsigned,
    /// Matches a signed integer.
    Signed,
    /// Matches a decimal numeral.
    Float,
}

impl PrintableCallback for Primitive {
    open spec fn matched(&self, input: Seq<char>, offset: nat) -> Option<(NodeView, nat)> {
        match self {
            Primitive::Token(literal) => token_match(literal@, input, offset),
            Primitive::Word => word_match(input, offset),
            Primitive::Unsigned => unsigned_match(input, offset),
            Primitive::Signed => signed_match(input, offset),
            Primitive::Float => float_match(input, offset),
        }
    }

    fn call<'a>(&self, expr: &'a str, offset: usize) -> (found: Option<(Node<'a>, usize)>) {
        match self {
            Primitive::Token(literal) => parse_token(literal.as_str(), expr, offset),
            Primitive::Word => parse_word(expr, offset),
            Primitive::Unsigned => parse_unsigned(expr, offset),
            Primitive::Signed => parse_signed(expr, offset),
            Primitive::Float => parse_float(expr, offset),
        }
    }

    open spec fn label(&self) -> Seq<char> {
        match self {
            Primitive::Token(_) => "parse_token"@,
            Primitive::Word => "parse_word"@,
            Primitive::Unsigned => "parse_unsigned"@,
            Primitive::Signed => "parse_signed"@,
            Primitive::Float => "parse_float"@,
        }
    }

    fn name(&self) -> (name: &'static str) {
        match self {
            Primitive::Token(_) => "parse_token",
            Primitive::Word => "parse_word",
            Primitive::Unsigned => "parse_unsigned",
            Primitive::Signed => "parse_signed",
            Primitive::Float => "parse_float",
        }
    }
}

/// Whether `rule` is a terminal whose matcher computes `matcher`.
pub open spec fn is_terminal_of(rule: Rule<'_>, matcher: MatchFn) -> bool {
    rule matches Rule::Terminal(held) && forall|input: Seq<char>, offset: nat|
        #[trigger] held.matched(input, offset) == matcher(input, offset)
}

/// A rule that matches the literal `literal`.
pub fn token(literal: &str) -> (rule: Rule<'static>)
    ensures
        is_terminal_of(rule, |input: Seq<char>, offset: nat| token_match(literal@, input, offset)),
{
    Rule::Terminal(Box::new(Primitive::Token(literal.to_owned())))
}

/// A rule that matches a word.
pub fn word() -> (rule: Rule<'static>)
    ensures
        is_terminal_of(rule, |input: Seq<char>, offset: nat| word_match(input, offset)),
{
    Rule::Terminal(Box::new(Primitive::Word))
}

/// A rule that matches an unsigned integer.
pub fn unsigned() -> (rule: Rule<'static>)
    ensures
        is_terminal_of(rule, |input: Seq<char>, offset: nat| unsigned_match(input, offset)),
{
    Rule::Terminal(Box::new(Primitive::Unsigned))
}

/// A rule that matches a signed integer.
pub fn signed() -> (rule: Rule<'static>)
    ensures
        is_terminal_of(rule, |input: Seq<char>, offset: nat| signed_match(input, offset)),
{
    Rule::Terminal(Box::new(Primitive::Signed))
}

/// A rule that matches a decimal numeral.
pub fn float() -> (rule: Rule<'static>)
    ensures
        is_terminal_of(rule, |input: Seq<char>, offset: nat| float_match(input, offset)),
{
    Rule::Terminal(Box::new(Primitive::Float))
}

} // verus!
