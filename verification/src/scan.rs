//! Byte classes of the wire syntax and the forward searches that the parsers
//! are built from.

use vstd::prelude::*;
use vstd::slice::slice_subrange;

verus! {

/// Line feed, the byte that ends a line.
pub const LF: u8 = 0x0a;

/// Horizontal tab, the byte in front of a value.
pub const TAB: u8 = 0x09;

/// Space, the byte in front of a declared length.
pub const SP: u8 = 0x20;

/// Vertical bar, the single byte of a terminator line.
pub const BAR: u8 = 0x7c;

/// Number sign, the byte that opens a list element with a declared length.
pub const HASH: u8 = 0x23;

/// Full stop, the type of a list of plain lines.
pub const DOT: u8 = 0x2e;

/// A byte that may occur in a name: an ASCII letter, an ASCII digit or `_`.
pub open spec fn is_keyword_byte(b: u8) -> bool {
    (0x30 <= b <= 0x39) || (0x41 <= b <= 0x5a) || (0x61 <= b <= 0x7a) || b == 0x5f
}

/// An ASCII decimal digit.
pub open spec fn is_digit(b: u8) -> bool {
    0x30 <= b <= 0x39
}

/// What a forward search looks for.
#[derive(Clone, Copy, Debug, PartialEq, Eq)]
pub enum Mark {
    /// The first byte that cannot be part of a name.
    KeywordEnd,
    /// The first byte that is not a decimal digit.
    DigitsEnd,
    /// The first line feed.
    LineFeed,
    /// The first place where a line feed, a vertical bar and a line feed
    /// follow one another: the end of a value followed by a terminator line.
    Terminator,
}

/// How many bytes must be at hand to tell whether a mark stands at a place.
pub open spec fn width(mark: Mark) -> int {
    match mark {
        Mark::Terminator => 3,
        _ => 1,
    }
}

/// Whether `mark` stands at index `i` of `s`. Meaningful where
/// `0 <= i` and `i + width(mark) <= s.len()`.
pub open spec fn marks(s: Seq<u8>, i: int, mark: Mark) -> bool {
    match mark {
        Mark::KeywordEnd => !is_keyword_byte(s[i]),
        Mark::DigitsEnd => !is_digit(s[i]),
        Mark::LineFeed => s[i] == LF,
        Mark::Terminator => s[i] == LF && s[i + 1] == BAR && s[i + 2] == LF,
    }
}

/// The first index at or after `from` where `mark` stands, or, where it
/// stands nowhere, the first index from which the bytes at hand are too few
/// to hold it.
pub open spec fn seek(s: Seq<u8>, from: int, mark: Mark) -> int
    decreases s.len() - from,
{
    if 0 <= from && from + width(mark) <= s.len() && !marks(s, from, mark) {
        seek(s, from + 1, mark)
    } else {
        from
    }
}

/// Whether the search from `from` found `mark` among the bytes of `s`.
pub open spec fn found(s: Seq<u8>, from: int, mark: Mark) -> bool {
    seek(s, from, mark) + width(mark) <= s.len()
}

/// Whether a line feed is among the bytes of `s`.
pub open spec fn holds_line_feed(s: Seq<u8>) -> bool {
    found(s, 0, Mark::LineFeed)
}

/// The number that the decimal digits in `s[from..to]` denote.
pub open spec fn decimal(s: Seq<u8>, from: int, to: int) -> nat
    decreases to - from,
{
    if from < to {
        decimal(s, from, to - 1) * 10 + (s[to - 1] - 0x30) as nat
    } else {
        0
    }
}

/// A search never goes backwards, and passes over no place where the mark
/// stands.
pub proof fn lemma_seek_bounds(s: Seq<u8>, from: int, mark: Mark)
    requires
        0 <= from,
    ensures
        from <= seek(s, from, mark),
        from + width(mark) <= s.len() ==> seek(s, from, mark) + width(mark) <= s.len() + 1,
        from + width(mark) > s.len() ==> seek(s, from, mark) == from,
        found(s, from, mark) ==> marks(s, seek(s, from, mark), mark),
        forall|i: int| from <= i < seek(s, from, mark) ==> !marks(s, i, mark),
    decreases s.len() - from,
{
    if from + width(mark) <= s.len() && !marks(s, from, mark) {
        lemma_seek_bounds(s, from + 1, mark);
    }
}

/// A place at which the mark stands, or at which the bytes run out, and
/// before which it stands nowhere, is the place that the search returns.
pub proof fn lemma_seek_is(s: Seq<u8>, from: int, mark: Mark, at: int)
    requires
        0 <= from <= at,
        forall|i: int| from <= i < at ==> !marks(s, i, mark),
        from < at ==> at + width(mark) <= s.len() + 1,
        at + width(mark) <= s.len() ==> marks(s, at, mark),
    ensures
        seek(s, from, mark) == at,
    decreases at - from,
{
    if from < at {
        lemma_seek_is(s, from + 1, mark, at);
    }
}

/// A search from any place between its start and its result has the same
/// result.
pub proof fn lemma_seek_from_between(s: Seq<u8>, from: int, mark: Mark, mid: int)
    requires
        0 <= from <= mid <= seek(s, from, mark),
    ensures
        seek(s, mid, mark) == seek(s, from, mark),
    decreases mid - from,
{
    if from < mid {
        lemma_seek_bounds(s, from, mark);
        lemma_seek_from_between(s, from + 1, mark, mid);
    }
}

/// What a search found stays found, at the same place, when more bytes
/// follow.
pub proof fn lemma_seek_extended(s: Seq<u8>, more: Seq<u8>, from: int, mark: Mark)
    requires
        0 <= from,
        found(s, from, mark),
    ensures
        seek(s + more, from, mark) == seek(s, from, mark),
    decreases s.len() - from,
{
    let t = s + more;
    assert(forall|i: int| 0 <= i < s.len() ==> t[i] == s[i]);
    if from + width(mark) <= s.len() && !marks(s, from, mark) {
        lemma_seek_extended(s, more, from + 1, mark);
    }
}

/// Searching the bytes that follow the first `shift` gives the same place,
/// counted from there.
pub proof fn lemma_seek_shifted(s: Seq<u8>, shift: int, from: int, mark: Mark)
    requires
        0 <= shift <= s.len(),
        0 <= from,
    ensures
        seek(s.skip(shift), from, mark) + shift == seek(s, from + shift, mark),
    decreases s.len() - shift - from,
{
    let t = s.skip(shift);
    if from + width(mark) <= t.len() {
        assert(marks(t, from, mark) == marks(s, from + shift, mark));
        if !marks(t, from, mark) {
            lemma_seek_shifted(s, shift, from + 1, mark);
        }
    }
}

/// A search passes every place at which the mark does not stand.
pub proof fn lemma_seek_past(s: Seq<u8>, from: int, mark: Mark, at: int)
    requires
        0 <= from <= at,
        from < at ==> at + width(mark) <= s.len() + 1,
        forall|i: int| from <= i < at ==> !marks(s, i, mark),
    ensures
        seek(s, from, mark) >= at,
    decreases at - from,
{
    if from < at {
        assert(!marks(s, from, mark));
        lemma_seek_past(s, from + 1, mark, at);
    } else {
        lemma_seek_bounds(s, from, mark);
    }
}

/// A search in the bytes from `lo` up to `hi` finds what the search in all
/// the bytes finds, where it finds anything, and is never ahead of it.
pub proof fn lemma_seek_window(s: Seq<u8>, lo: int, hi: int, from: int, mark: Mark)
    requires
        0 <= lo,
        0 <= from,
        lo + from <= hi <= s.len(),
    ensures
        seek(s, lo + from, mark) >= seek(s.subrange(lo, hi), from, mark) + lo,
        found(s.subrange(lo, hi), from, mark) ==> seek(s, lo + from, mark) == seek(
            s.subrange(lo, hi),
            from,
            mark,
        ) + lo,
{
    let w = s.subrange(lo, hi);
    let e = seek(w, from, mark);
    lemma_seek_bounds(w, from, mark);
    assert forall|i: int| lo + from <= i < lo + e implies !marks(s, i, mark) by {
        assert(!marks(w, i - lo, mark));
    }
    lemma_seek_past(s, lo + from, mark, lo + e);
    if found(w, from, mark) {
        assert(marks(w, e, mark));
        assert(marks(s, lo + e, mark));
        lemma_seek_is(s, lo + from, mark, lo + e);
    }
}

/// The number that a run of digits denotes depends on those bytes alone.
pub proof fn lemma_decimal_same(s: Seq<u8>, from: int, to: int, t: Seq<u8>, shift: int)
    requires
        0 <= from <= to <= s.len(),
        0 <= from - shift,
        to - shift <= t.len(),
        forall|i: int| from <= i < to ==> s[i] == t[i - shift],
    ensures
        decimal(s, from, to) == decimal(t, from - shift, to - shift),
    decreases to - from,
{
    if from < to {
        lemma_decimal_same(s, from, to - 1, t, shift);
    }
}

/// A longer run of digits denotes no smaller number.
pub proof fn lemma_decimal_grows(s: Seq<u8>, from: int, mid: int, to: int)
    requires
        from <= mid <= to,
    ensures
        decimal(s, from, mid) <= decimal(s, from, to),
    decreases to - mid,
{
    if mid < to {
        lemma_decimal_grows(s, from, mid, to - 1);
    }
}

/// A line feed is among the bytes of two runs where it is among those of
/// one of them.
pub proof fn lemma_line_feed_in_either(first: Seq<u8>, second: Seq<u8>)
    ensures
        holds_line_feed(first + second) == (holds_line_feed(first) || holds_line_feed(second)),
{
    let both = first + second;
    let n = first.len() as int;
    lemma_seek_bounds(first, 0, Mark::LineFeed);
    if holds_line_feed(first) {
        lemma_seek_extended(first, second, 0, Mark::LineFeed);
    } else {
        assert forall|i: int| 0 <= i < n implies !marks(both, i, Mark::LineFeed) by {
            assert(!marks(first, i, Mark::LineFeed));
        }
        lemma_seek_past(both, 0, Mark::LineFeed, n);
        lemma_seek_from_between(both, 0, Mark::LineFeed, n);
        lemma_seek_shifted(both, n, 0, Mark::LineFeed);
        assert(both.skip(n) =~= second);
    }
}

/// Searches `buffer` forward from `from` for `mark`.
pub fn find(buffer: &[u8], from: usize, mark: Mark) -> (at: usize)
    ensures
        at == seek(buffer@, from as int, mark),
{
    let len: usize = buffer.len();
    let need: usize = match mark {
        Mark::Terminator => 3,
        _ => 1,
    };
    let mut i: usize = from;
    while i < len && len - i >= need && !stands(buffer, i, mark)
        invariant
            len == buffer@.len(),
            need == width(mark),
            from <= i,
            from < i ==> i + need <= len + 1,
            forall|j: int| from <= j < i ==> !marks(buffer@, j, mark),
        decreases len - i,
    {
        i += 1;
    }
    proof {
        lemma_seek_is(buffer@, from as int, mark, i as int);
    }
    i
}

/// Tells whether `mark` stands at index `i` of `buffer`.
fn stands(buffer: &[u8], i: usize, mark: Mark) -> (r: bool)
    requires
        i + width(mark) <= buffer@.len(),
    ensures
        r == marks(buffer@, i as int, mark),
{
    match mark {
        Mark::KeywordEnd => !keyword_byte(buffer[i]),
        Mark::DigitsEnd => !digit(buffer[i]),
        Mark::LineFeed => buffer[i] == LF,
        Mark::Terminator => buffer[i] == LF && buffer[i + 1] == BAR && buffer[i + 2] == LF,
    }
}

/// Tells whether a line feed is among the bytes of `buffer[from..to]`.
pub fn has_line_feed(buffer: &[u8], from: usize, to: usize) -> (r: bool)
    requires
        from <= to <= buffer@.len(),
    ensures
        r == holds_line_feed(buffer@.subrange(from as int, to as int)),
{
    let part = slice_subrange(buffer, from, to);
    find(part, 0, Mark::LineFeed) < part.len()
}

/// Tells whether `b` may occur in a name.
pub fn keyword_byte(b: u8) -> (r: bool)
    ensures
        r == is_keyword_byte(b),
{
    (0x30 <= b && b <= 0x39) || (0x41 <= b && b <= 0x5a) || (0x61 <= b && b <= 0x7a) || b == 0x5f
}

/// Tells whether `b` is a decimal digit.
pub fn digit(b: u8) -> (r: bool)
    ensures
        r == is_digit(b),
{
    0x30 <= b && b <= 0x39
}

/// Reads the decimal digits in `buffer[from..to]` as a number, or `None`
/// where the number does not fit the machine word.
pub fn number(buffer: &[u8], from: usize, to: usize) -> (r: Option<usize>)
    requires
        from <= to <= buffer@.len(),
        to <= seek(buffer@, from as int, Mark::DigitsEnd),
    ensures
        r == (if decimal(buffer@, from as int, to as int) <= usize::MAX {
            Some(decimal(buffer@, from as int, to as int) as usize)
        } else {
            None
        }),
{
    let mut value: usize = 0;
    let mut i: usize = from;
    proof {
        lemma_seek_bounds(buffer@, from as int, Mark::DigitsEnd);
        assert forall|j: int| from <= j < to implies is_digit(#[trigger] buffer@[j]) by {
            assert(!marks(buffer@, j, Mark::DigitsEnd));
        }
    }
    while i < to
        invariant
            from <= i <= to <= buffer@.len(),
            forall|j: int| from <= j < to ==> is_digit(#[trigger] buffer@[j]),
            value == decimal(buffer@, from as int, i as int),
        decreases to - i,
    {
        let d: usize = (buffer[i] - 0x30) as usize;
        let next: Option<usize> = match value.checked_mul(10) {
            Some(tens) => tens.checked_add(d),
            None => None,
        };
        proof {
            lemma_decimal_grows(buffer@, from as int, i + 1, to as int);
        }
        match next {
            Some(v) => {
                value = v;
            },
            None => {
                return None;
            },
        }
        i += 1;
    }
    Some(value)
}

} // verus!
