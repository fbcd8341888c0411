//! A parser sees a window of the stream: the bytes that have arrived and that
//! it has not consumed. This module shows what a call on a window has to do
//! with the same call on the whole stream.

use vstd::prelude::*;
use crate::packet::{body_line, modifier_line, sized, Line};
use crate::scan::{lemma_decimal_same, lemma_seek_bounds, lemma_seek_window, seek, Mark};

verus! {

/// A line as it is found in the stream, given as it is found in a window
/// that begins at `lo` and ends at `hi`.
pub open spec fn line_in_stream(line: Line, s: Seq<u8>, lo: int, hi: int) -> Line {
    match line {
        Line::More => Line::More,
        Line::Bad(e) => Line::Bad(e),
        Line::Whole { name_end, value_start, value_end } => Line::Whole {
            name_end: name_end + lo,
            value_start: value_start + lo,
            value_end: value_end + lo,
        },
        Line::Partial { name_end, value_start, missing } => sized(
            s,
            name_end + lo,
            value_start + lo,
            missing + (hi - lo - value_start),
        ),
    }
}

/// A slice of a window is a slice of the stream.
pub proof fn lemma_subrange_window(s: Seq<u8>, lo: int, hi: int, a: int, b: int)
    requires
        0 <= lo,
        0 <= a <= b <= hi - lo,
        hi <= s.len(),
    ensures
        s.subrange(lo, hi).subrange(a, b) == s.subrange(lo + a, lo + b),
{
    assert(s.subrange(lo, hi).subrange(a, b) =~= s.subrange(lo + a, lo + b));
}

/// A modifier that a window decides is the same modifier in the stream.
pub proof fn lemma_modifier_line_window(s: Seq<u8>, lo: int, hi: int, at: int, lengths: bool)
    requires
        0 <= lo,
        0 <= at,
        lo + at < hi <= s.len(),
    ensures
        !(modifier_line(s.subrange(lo, hi), at, lengths) is More) ==> modifier_line(
            s,
            lo + at,
            lengths,
        ) == line_in_stream(modifier_line(s.subrange(lo, hi), at, lengths), s, lo, hi),
{
    let w = s.subrange(lo, hi);
    lemma_seek_window(s, lo, hi, at + 1, Mark::KeywordEnd);
    lemma_seek_bounds(w, at + 1, Mark::KeywordEnd);
    let name_end = seek(w, at + 1, Mark::KeywordEnd);
    if name_end + 1 < w.len() {
        lemma_seek_window(s, lo, hi, name_end + 1, Mark::DigitsEnd);
        lemma_seek_window(s, lo, hi, name_end + 1, Mark::LineFeed);
        lemma_seek_bounds(w, name_end + 1, Mark::DigitsEnd);
        let digits_end = seek(w, name_end + 1, Mark::DigitsEnd);
        if digits_end < w.len() {
            lemma_decimal_same(w, name_end + 1, digits_end, s, -lo);
        }
    }
}

/// A body that a window decides is the same body in the stream.
pub proof fn lemma_body_line_window(s: Seq<u8>, lo: int, hi: int, at: int, lengths: bool)
    requires
        0 <= lo,
        0 <= at,
        lo + at < hi <= s.len(),
    ensures
        !(body_line(s.subrange(lo, hi), at, lengths) is More) ==> body_line(s, lo + at, lengths)
            == line_in_stream(body_line(s.subrange(lo, hi), at, lengths), s, lo, hi),
{
    let w = s.subrange(lo, hi);
    lemma_seek_window(s, lo, hi, at, Mark::KeywordEnd);
    lemma_seek_bounds(w, at, Mark::KeywordEnd);
    let name_end = seek(w, at, Mark::KeywordEnd);
    if name_end + 1 <= w.len() {
        lemma_seek_window(s, lo, hi, name_end + 1, Mark::Terminator);
        lemma_seek_window(s, lo, hi, name_end + 1, Mark::DigitsEnd);
        lemma_seek_bounds(w, name_end + 1, Mark::DigitsEnd);
        let digits_end = seek(w, name_end + 1, Mark::DigitsEnd);
        if name_end + 1 < w.len() && digits_end < w.len() {
            lemma_decimal_same(w, name_end + 1, digits_end, s, -lo);
        }
    }
}

} // verus!
