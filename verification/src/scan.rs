//! Character classes and maximal runs of characters of one class.
//!
//! An offset into a text counts characters, not bytes: it is an index into
//! the text as a sequence of `char`. To reach an offset in a `str` takes time
//! in proportion to it.

use vstd::prelude::*;

verus! {

/// The classes of characters that the matchers tell apart.
#[derive(Clone, Copy, Debug, PartialEq, Eq)]
pub enum CharClass {
    /// Characters with the Unicode property `White_Space`.
    Space,
    /// Every character that is not in `Space`.
    NonSpace,
    /// The ASCII digits `0` to `9`.
    Digit,
}

/// Whether `c` has the Unicode property `White_Space`.
pub open spec fn is_space(c: char) -> bool {
    let n = c as u32;
    ||| 0x09 <= n <= 0x0D
    ||| n == 0x20
    ||| n == 0x85
    ||| n == 0xA0
    ||| n == 0x1680
    ||| 0x2000 <= n <= 0x200A
    ||| n == 0x2028
    ||| n == 0x2029
    ||| n == 0x202F
    ||| n == 0x205F
    ||| n == 0x3000
}

/// Whether `c` is one of the ASCII digits `0` to `9`.
pub open spec fn is_digit(c: char) -> bool {
    0x30 <= c as u32 <= 0x39
}

/// Whether `c` belongs to `class`.
pub open spec fn in_class(class: CharClass, c: char) -> bool {
    match class {
        CharClass::Space => is_space(c),
        CharClass::NonSpace => !is_space(c),
        CharClass::Digit => is_digit(c),
    }
}

/// The end of the maximal run of characters of `class` that starts at `from`:
/// the first index at or after `from` that holds no character of `class`,
/// or the length of `s` when there is none.
pub open spec fn run_end(s: Seq<char>, from: int, class: CharClass) -> int
    decreases s.len() - from,
{
    if 0 <= from < s.len() && in_class(class, s[from]) {
        run_end(s, from + 1, class)
    } else {
        from
    }
}

/// The offset that skipping leading whitespace from `from` arrives at.
pub open spec fn skip_whitespace(s: Seq<char>, from: int) -> int {
    run_end(s, from, CharClass::Space)
}

/// `end` bounds the maximal run of `class` from `from`: every character
/// before it belongs to the class, and the one at `end`, if any, does not.
pub open spec fn is_run_end(s: Seq<char>, from: int, class: CharClass, end: int) -> bool {
    &&& from <= end <= s.len()
    &&& forall|k: int| from <= k < end ==> in_class(class, #[trigger] s[k])
    &&& end < s.len() ==> !in_class(class, s[end])
}

/// `run_end` is a run end in the sense of `is_run_end`.
pub proof fn lemma_run_end_is_run_end(s: Seq<char>, from: int, class: CharClass)
    requires
        0 <= from <= s.len(),
    ensures
        is_run_end(s, from, class, run_end(s, from, class)),
    decreases s.len() - from,
{
    if from < s.len() && in_class(class, s[from]) {
        lemma_run_end_is_run_end(s, from + 1, class);
    }
}

/// There is one run end only.
pub proof fn lemma_run_end_unique(s: Seq<char>, from: int, class: CharClass, end: int)
    requires
        0 <= from,
        is_run_end(s, from, class, end),
    ensures
        end == run_end(s, from, class),
    decreases end - from,
{
    if from < end {
        assert(in_class(class, s[from]));
        lemma_run_end_unique(s, from + 1, class, end);
    }
}

/// The run end depends only on what follows `from`: two texts with equal
/// remainders have runs of equal length.
pub proof fn lemma_run_end_of_remainder(
    a: Seq<char>,
    i: int,
    b: Seq<char>,
    j: int,
    class: CharClass,
)
    requires
        0 <= i <= a.len(),
        0 <= j <= b.len(),
        a.skip(i) == b.skip(j),
    ensures
        run_end(a, i, class) - i == run_end(b, j, class) - j,
    decreases a.len() - i,
{
    assert(a.len() - i == b.len() - j) by {
        assert(a.skip(i).len() == a.len() - i);
        assert(b.skip(j).len() == b.len() - j);
    }
    if i < a.len() {
        assert(a[i] == a.skip(i)[0]);
        assert(b[j] == b.skip(j)[0]);
        if in_class(class, a[i]) {
            assert(a.skip(i + 1) =~= a.skip(i).skip(1));
            assert(b.skip(j + 1) =~= b.skip(j).skip(1));
            lemma_run_end_of_remainder(a, i + 1, b, j + 1, class);
        }
    }
}

/// Tells whether `c` has the Unicode property `White_Space`.
pub fn is_whitespace(c: char) -> (r: bool)
    ensures
        r == is_space(c),
{
    let n: u32 = c as u32;
    (0x09 <= n && n <= 0x0D) || n == 0x20 || n == 0x85 || n == 0xA0 || n == 0x1680 || (0x2000 <= n
        && n <= 0x200A) || n == 0x2028 || n == 0x2029 || n == 0x202F || n == 0x205F || n == 0x3000
}

/// Tells whether `c` is an ASCII digit.
pub fn is_ascii_digit(c: char) -> (r: bool)
    ensures
        r == is_digit(c),
{
    let n: u32 = c as u32;
    0x30 <= n && n <= 0x39
}

/// Tells whether `c` belongs to `class`.
pub fn belongs_to(class: CharClass, c: char) -> (r: bool)
    ensures
        r == in_class(class, c),
{
    match class {
        CharClass::Space => is_whitespace(c),
        CharClass::NonSpace => !is_whitespace(c),
        CharClass::Digit => is_ascii_digit(c),
    }
}

/// Walks from `offset` over the characters of `class` and returns where the
/// run ends. An offset behind the end of `expr` comes back as it is.
pub fn scan_run(expr: &str, offset: usize, class: CharClass) -> (end: usize)
    ensures
        end == run_end(expr@, offset as int, class),
        offset <= end,
        offset <= expr@.len() ==> is_run_end(expr@, offset as int, class, end as int),
{
    let len: usize = expr.unicode_len();
    if offset > len {
        return offset;
    }
    let mut i: usize = offset;
    while i < len && belongs_to(class, expr.get_char(i))
        invariant
            len == expr@.len(),
            offset <= i <= len,
            forall|k: int| offset <= k < i ==> in_class(class, #[trigger] expr@[k]),
        decreases len - i,
    {
        i += 1;
    }
    proof {
        lemma_run_end_unique(expr@, offset as int, class, i as int);
    }
    i
}

} // verus!
