//! What holds of every run of a list parser.

use vstd::prelude::*;
use crate::list::{
    behind_header, element_step, header_line, list_after_rewind, list_step, list_value_step,
    list_wait, start_step, ListModel, ListOutcome, ListPart, ListStep,
};
use crate::scan::{is_digit, lemma_seek_bounds, Mark};
use crate::token::{ListToken, PsycListParserError};

verus! {

/// Two states that differ at most in the count of unparsed bytes, the second
/// with its cursor `shift` bytes further on.
pub open spec fn list_aligned(st: ListModel, shift: int, other: ListModel) -> bool {
    &&& other.part == st.part
    &&& other.kind == st.kind
    &&& other.limit == st.limit
    &&& other.pending == st.pending
    &&& other.newline == st.newline
    &&& other.remaining == st.remaining
    &&& other.cursor == st.cursor + shift
}

/// What a caller does with a parser in one turn: it may first tell the parser
/// that the buffer begins anew, and then has it parse a buffer.
pub struct ListCall {
    pub rewind: bool,
    pub buf: Seq<u8>,
}

/// One turn of a caller.
pub open spec fn list_turn(st: ListModel, call: ListCall) -> ListStep {
    list_step(
        if call.rewind {
            list_after_rewind(st)
        } else {
            st
        },
        call.buf,
    )
}

/// What the parser returns, turn by turn.
pub open spec fn list_replies(st: ListModel, calls: Seq<ListCall>) -> Seq<ListOutcome>
    decreases calls.len(),
{
    if calls.len() == 0 {
        Seq::empty()
    } else {
        seq![list_turn(st, calls[0]).outcome] + list_replies(
            list_turn(st, calls[0]).next,
            calls.skip(1),
        )
    }
}

/// The state in which the turns leave the parser.
pub open spec fn list_state_after(st: ListModel, calls: Seq<ListCall>) -> ListModel
    decreases calls.len(),
{
    if calls.len() == 0 {
        st
    } else {
        list_state_after(list_turn(st, calls[0]).next, calls.skip(1))
    }
}

/// Whether `outcome` is `InsufficientData`.
pub open spec fn list_waits(outcome: ListOutcome) -> bool {
    outcome == Ok::<ListToken, PsycListParserError>(ListToken::InsufficientData)
}

/// A call on a buffer that holds the cursor never moves the cursor back,
/// leaves it in the buffer, and counts as unparsed what lies behind it.
pub proof fn lemma_list_step_moves_forward(st: ListModel, buf: Seq<u8>)
    requires
        0 <= st.cursor <= buf.len(),
        0 <= st.remaining,
    ensures
        st.cursor <= list_step(st, buf).next.cursor <= buf.len(),
        list_step(st, buf).next.cursor + list_step(st, buf).next.unparsed == buf.len(),
        0 <= list_step(st, buf).next.remaining,
{
    reveal(list_step);
    lemma_seek_bounds(buf, st.cursor, Mark::DigitsEnd);
    let end = crate::scan::seek(buf, st.cursor, Mark::DigitsEnd) + 3;
    let at = if st.pending {
        st.cursor + 1
    } else {
        st.cursor
    };
    if at < buf.len() {
        lemma_seek_bounds(buf, at, Mark::LineFeed);
        lemma_seek_bounds(buf, at + 1, Mark::DigitsEnd);
    }
    if end < buf.len() {
        lemma_seek_bounds(buf, end, Mark::LineFeed);
        lemma_seek_bounds(buf, end + 1, Mark::DigitsEnd);
    }
}

/// A call at an element that returns `InsufficientData` changes nothing but
/// the count of unparsed bytes.
pub proof fn lemma_element_step_waits(st: ListModel, buf: Seq<u8>)
    requires
        list_waits(element_step(st, buf).outcome),
    ensures
        element_step(st, buf) == list_wait(st, buf),
{
}

/// What a call at an element returns does not depend on the count of
/// unparsed bytes that the parser recorded.
pub proof fn lemma_element_step_ignores_unparsed(a: ListModel, b: ListModel, buf: Seq<u8>)
    requires
        list_aligned(a, 0, b),
    ensures
        element_step(a, buf) == element_step(b, buf),
{
}

/// A call inside a value is a call of `list_value_step`, a call at an
/// element one of `element_step`.
pub proof fn lemma_list_step_by_part(st: ListModel, buf: Seq<u8>)
    requires
        0 <= st.cursor <= buf.len(),
    ensures
        st.part == ListPart::ElementValue ==> list_step(st, buf) == list_value_step(st, buf),
        st.part == ListPart::Elements ==> list_step(st, buf) == element_step(st, buf),
        st.part == ListPart::Start ==> list_step(st, buf) == start_step(st, buf),
        (st.part is Failed || st.part is Complete) ==> !list_waits(list_step(st, buf).outcome),
{
    reveal(list_step);
}

/// A call that returns `InsufficientData` has consumed at most the header of
/// the list, and the same call on the same bytes returns `InsufficientData`
/// again and changes nothing.
pub proof fn law_list_insufficient_data_repeats(st: ListModel, buf: Seq<u8>)
    requires
        list_waits(list_step(st, buf).outcome),
    ensures
        list_step(list_step(st, buf).next, buf) == (ListStep {
            outcome: Ok(ListToken::InsufficientData),
            next: list_step(st, buf).next,
        }),
{
    if 0 <= st.cursor <= buf.len() {
        lemma_list_step_by_part(st, buf);
        let next = list_step(st, buf).next;
        match st.part {
            ListPart::ElementValue => {
                lemma_list_step_by_part(next, buf);
            },
            ListPart::Elements => {
                lemma_element_step_waits(st, buf);
                lemma_element_step_ignores_unparsed(st, next, buf);
                lemma_list_step_by_part(next, buf);
            },
            ListPart::Start => {
                let header = header_line(buf, st.cursor);
                if st.cursor < buf.len() && is_digit(buf[st.cursor]) && header is Declared {
                    lemma_seek_bounds(buf, st.cursor, Mark::DigitsEnd);
                    let behind = behind_header(st, buf, header);
                    lemma_element_step_waits(behind, buf);
                    lemma_element_step_ignores_unparsed(behind, next, buf);
                    lemma_list_step_by_part(next, buf);
                } else if st.cursor < buf.len() && !is_digit(buf[st.cursor]) {
                    let behind = ListModel { part: ListPart::Elements, ..st };
                    lemma_element_step_waits(behind, buf);
                    lemma_element_step_ignores_unparsed(behind, next, buf);
                    lemma_list_step_by_part(next, buf);
                } else {
                    lemma_list_step_by_part(next, buf);
                }
            },
            _ => {},
        }
    } else {
        reveal(list_step);
    }
}

/// What a call returns does not depend on the count of unparsed bytes that
/// the parser recorded.
pub proof fn lemma_list_step_ignores_unparsed(a: ListModel, b: ListModel, buf: Seq<u8>)
    requires
        list_aligned(a, 0, b),
    ensures
        list_step(a, buf).outcome == list_step(b, buf).outcome,
        list_aligned(list_step(a, buf).next, 0, list_step(b, buf).next),
        0 <= a.cursor <= buf.len() ==> list_step(a, buf) == list_step(b, buf),
{
    reveal(list_step);
    lemma_element_step_ignores_unparsed(a, b, buf);
    if 0 <= a.cursor < buf.len() && is_digit(buf[a.cursor]) {
        lemma_element_step_ignores_unparsed(
            behind_header(a, buf, header_line(buf, a.cursor)),
            behind_header(b, buf, header_line(buf, b.cursor)),
            buf,
        );
    }
    lemma_element_step_ignores_unparsed(
        ListModel { part: ListPart::Elements, ..a },
        ListModel { part: ListPart::Elements, ..b },
        buf,
    );
}

/// Two parsers in the same state that are given the same bytes, turn by
/// turn, return the same tokens.
pub proof fn law_list_same_bytes_same_tokens(a: ListModel, b: ListModel, calls: Seq<ListCall>)
    requires
        list_aligned(a, 0, b),
    ensures
        list_replies(a, calls) == list_replies(b, calls),
        list_aligned(list_state_after(a, calls), 0, list_state_after(b, calls)),
    decreases calls.len(),
{
    if calls.len() > 0 {
        let a0 = if calls[0].rewind {
            list_after_rewind(a)
        } else {
            a
        };
        let b0 = if calls[0].rewind {
            list_after_rewind(b)
        } else {
            b
        };
        lemma_list_step_ignores_unparsed(a0, b0, calls[0].buf);
        law_list_same_bytes_same_tokens(
            list_turn(a, calls[0]).next,
            list_turn(b, calls[0]).next,
            calls.skip(1),
        );
    }
}

} // verus!
