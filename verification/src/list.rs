//! The grammar of a list, as a function from the state of a parser and the
//! bytes of its buffer to a token and the next state.
//!
//! ```text
//! list     = [ header ] *element "|" LF
//! header   = length TAB type LF
//! type     = "." / "#"
//! element  = line / counted
//! line     = value LF
//! counted  = "#" length TAB value LF
//! length   = 1*DIGIT
//! ```
//!
//! The header declares the greatest length that an element of the list may
//! have, and how its elements are framed: in a list of type `.` each is a
//! line, in a list of type `#` each declares its length. A list without a
//! header sets no limit and its elements may be framed either way. The value
//! of a line ends in front of the next line feed; the value of a counted
//! element is as many bytes as it declares, whatever they are. A line whose
//! first byte is a digit cannot be the first of a list without a header, nor
//! can any line begin with `|` or `#`: such a value is sent counted.

use vstd::prelude::*;
use crate::packet::{sized, Line};
use crate::scan::{decimal, holds_line_feed, is_digit, seek, Mark, BAR, DOT, HASH, LF, TAB};
use crate::token::{ListToken, PsycListParserError};

verus! {

/// How the elements of a list are framed.
#[derive(Clone, Copy, Debug, PartialEq, Eq)]
pub enum ListKind {
    /// Either way: the list has no header.
    Mixed,
    /// Each element is a line.
    Lines,
    /// Each element declares its length.
    Counted,
}

/// Where in a list a parser stands.
#[derive(Clone, Copy, Debug, PartialEq, Eq)]
pub enum ListPart {
    /// In front of the list.
    Start,
    /// At an element or at the terminator line.
    Elements,
    /// Inside the value of a counted element.
    ElementValue,
    /// Behind the list.
    Complete,
    /// Stopped by an error, for good.
    Failed(PsycListParserError),
}

/// The state of a list parser.
pub struct ListModel {
    pub part: ListPart,
    pub kind: ListKind,
    /// The greatest length of an element, where the list declares one.
    pub limit: Option<int>,
    /// The value in front of the cursor is that of an element, and its line
    /// feed is still to come.
    pub pending: bool,
    /// The value in front of the cursor, as far as it has arrived, holds a
    /// line feed.
    pub newline: bool,
    /// Inside a value: how many of its bytes are still to come.
    pub remaining: int,
    /// How many bytes of the buffer are consumed.
    pub cursor: int,
    /// How many bytes of the buffer last parsed lie behind the cursor.
    pub unparsed: int,
}

/// A token, or the error that stopped the parser.
pub type ListOutcome = Result<ListToken, PsycListParserError>;

/// What one call does: what it returns and the state it leaves.
pub struct ListStep {
    pub outcome: ListOutcome,
    pub next: ListModel,
}

/// What the bytes of a header amount to.
pub enum Header {
    /// The bytes at hand do not decide it.
    More,
    /// The header breaks the syntax.
    Bad(PsycListParserError),
    /// The header ends in front of `end`.
    Declared { limit: int, kind: ListKind, end: int },
}

/// What the bytes of an element amount to.
pub enum Element {
    /// The bytes at hand do not decide it.
    More,
    /// The element breaks the syntax.
    Bad(PsycListParserError),
    /// The value lies from `value_start` to `value_end`.
    Whole { value_start: int, value_end: int },
    /// The value begins at `value_start`, runs to the end of the buffer and
    /// lacks `missing` bytes.
    Partial { value_start: int, missing: int },
}

/// The state of a parser in front of a list.
pub open spec fn list_initial() -> ListModel {
    ListModel {
        part: ListPart::Start,
        kind: ListKind::Mixed,
        limit: None,
        pending: false,
        newline: false,
        remaining: 0,
        cursor: 0,
        unparsed: 0,
    }
}

/// Whether an element of `length` bytes is longer than the list permits.
pub open spec fn over_limit(limit: Option<int>, length: int) -> bool {
    match limit {
        Some(most) => length > most,
        None => false,
    }
}

/// The header whose first digit stands at `at`.
pub open spec fn header_line(buf: Seq<u8>, at: int) -> Header {
    let digits_end = seek(buf, at, Mark::DigitsEnd);
    if digits_end >= buf.len() {
        Header::More
    } else if buf[digits_end] != TAB {
        Header::Bad(PsycListParserError::GenericError)
    } else if decimal(buf, at, digits_end) > usize::MAX {
        Header::Bad(PsycListParserError::InvalidElementLength)
    } else if digits_end + 1 >= buf.len() {
        Header::More
    } else if buf[digits_end + 1] != DOT && buf[digits_end + 1] != HASH {
        Header::Bad(PsycListParserError::InvalidType)
    } else if digits_end + 2 >= buf.len() {
        Header::More
    } else if buf[digits_end + 2] != LF {
        Header::Bad(PsycListParserError::InvalidType)
    } else {
        Header::Declared {
            limit: decimal(buf, at, digits_end) as int,
            kind: if buf[digits_end + 1] == DOT {
                ListKind::Lines
            } else {
                ListKind::Counted
            },
            end: digits_end + 3,
        }
    }
}

/// The counted element whose number sign stands at `at`.
pub open spec fn counted_element(buf: Seq<u8>, at: int, limit: Option<int>) -> Element {
    if at + 1 >= buf.len() {
        Element::More
    } else if !is_digit(buf[at + 1]) {
        Element::Bad(PsycListParserError::NoElementLength)
    } else {
        let digits_end = seek(buf, at + 1, Mark::DigitsEnd);
        if digits_end >= buf.len() {
            Element::More
        } else if buf[digits_end] != TAB || decimal(buf, at + 1, digits_end) > usize::MAX
            || over_limit(limit, decimal(buf, at + 1, digits_end) as int) {
            Element::Bad(PsycListParserError::InvalidElementLength)
        } else {
            match sized(buf, at, digits_end + 1, decimal(buf, at + 1, digits_end) as int) {
                Line::Whole { value_start, value_end, .. } => Element::Whole {
                    value_start,
                    value_end,
                },
                Line::Partial { value_start, missing, .. } => Element::Partial {
                    value_start,
                    missing,
                },
                _ => Element::More,
            }
        }
    }
}

/// The line that begins at `at`.
pub open spec fn line_element(buf: Seq<u8>, at: int, limit: Option<int>) -> Element {
    let value_end = seek(buf, at, Mark::LineFeed);
    if over_limit(limit, value_end - at) {
        Element::Bad(PsycListParserError::InvalidElementLength)
    } else if value_end >= buf.len() {
        Element::More
    } else {
        Element::Whole { value_start: at, value_end }
    }
}

/// The call that cannot decide: nothing is consumed.
pub open spec fn list_wait(st: ListModel, buf: Seq<u8>) -> ListStep {
    ListStep {
        outcome: Ok(ListToken::InsufficientData),
        next: ListModel { unparsed: buf.len() - st.cursor, ..st },
    }
}

/// The call that meets a breach of the syntax: the parser stops where it
/// stands.
pub open spec fn list_fail(st: ListModel, buf: Seq<u8>, e: PsycListParserError) -> ListStep {
    ListStep {
        outcome: Err(e),
        next: ListModel { part: ListPart::Failed(e), unparsed: buf.len() - st.cursor, ..st },
    }
}

/// The call that returns `token` and leaves the cursor at `cursor`.
pub open spec fn list_emit(
    st: ListModel,
    buf: Seq<u8>,
    token: ListToken,
    part: ListPart,
    pending: bool,
    remaining: int,
    cursor: int,
) -> ListStep {
    ListStep {
        outcome: Ok(token),
        next: ListModel {
            part,
            kind: st.kind,
            limit: st.limit,
            pending,
            newline: st.newline,
            remaining,
            cursor,
            unparsed: buf.len() - cursor,
        },
    }
}

/// The call `step`, which returned an element or a part of one, with the
/// note whether a line feed is in what has arrived of its value.
pub open spec fn list_noted(step: ListStep, newline: bool) -> ListStep {
    ListStep { outcome: step.outcome, next: ListModel { newline, ..step.next } }
}

/// What an element amounts to as a call.
pub open spec fn element_found(st: ListModel, buf: Seq<u8>, element: Element) -> ListStep {
    match element {
        Element::More => list_wait(st, buf),
        Element::Bad(e) => list_fail(st, buf, e),
        Element::Whole { value_start, value_end } => list_noted(
            list_emit(
                st,
                buf,
                ListToken::ListElement { value: buf.subrange(value_start, value_end) },
                ListPart::Elements,
                true,
                0,
                value_end,
            ),
            holds_line_feed(buf.subrange(value_start, value_end)),
        ),
        Element::Partial { value_start, missing } => list_noted(
            list_emit(
                st,
                buf,
                ListToken::ListElementStart {
                    value_part: buf.subrange(value_start, buf.len() as int),
                },
                ListPart::ElementValue,
                false,
                missing,
                buf.len() as int,
            ),
            holds_line_feed(buf.subrange(value_start, buf.len() as int)),
        ),
    }
}

/// A call at an element or at the terminator line.
pub open spec fn element_step(st: ListModel, buf: Seq<u8>) -> ListStep {
    let at = if st.pending {
        st.cursor + 1
    } else {
        st.cursor
    };
    if st.pending && st.cursor < buf.len() && buf[st.cursor] != LF {
        list_fail(
            st,
            buf,
            if st.newline {
                PsycListParserError::InvalidElementLength
            } else {
                PsycListParserError::GenericError
            },
        )
    } else if at >= buf.len() {
        list_wait(st, buf)
    } else if buf[at] == BAR {
        if at + 1 >= buf.len() {
            list_wait(st, buf)
        } else if buf[at + 1] == LF {
            list_emit(st, buf, ListToken::Complete, ListPart::Complete, false, 0, at + 2)
        } else {
            list_fail(st, buf, PsycListParserError::InvalidElementStart)
        }
    } else if buf[at] == HASH {
        if st.kind == ListKind::Lines {
            list_fail(st, buf, PsycListParserError::InvalidElementType)
        } else {
            element_found(st, buf, counted_element(buf, at, st.limit))
        }
    } else {
        if st.kind == ListKind::Counted {
            list_fail(st, buf, PsycListParserError::InvalidElementType)
        } else {
            element_found(st, buf, line_element(buf, at, st.limit))
        }
    }
}

/// The state behind a header.
pub open spec fn behind_header(st: ListModel, buf: Seq<u8>, header: Header) -> ListModel {
    ListModel {
        part: ListPart::Elements,
        kind: header->kind,
        limit: Some(header->limit),
        pending: false,
        newline: st.newline,
        remaining: 0,
        cursor: header->end,
        unparsed: buf.len() - header->end,
    }
}

/// A call in front of the list: the header, where there is one, is read and
/// not handed out, and the call goes on to the first element.
pub open spec fn start_step(st: ListModel, buf: Seq<u8>) -> ListStep {
    if st.cursor >= buf.len() {
        list_wait(st, buf)
    } else if is_digit(buf[st.cursor]) {
        match header_line(buf, st.cursor) {
            Header::More => list_wait(st, buf),
            Header::Bad(e) => list_fail(st, buf, e),
            Header::Declared { limit, kind, end } => element_step(
                behind_header(st, buf, header_line(buf, st.cursor)),
                buf,
            ),
        }
    } else {
        element_step(ListModel { part: ListPart::Elements, ..st }, buf)
    }
}

/// A call inside the value of a counted element.
pub open spec fn list_value_step(st: ListModel, buf: Seq<u8>) -> ListStep {
    let at_hand = buf.len() - st.cursor;
    if at_hand == 0 {
        list_wait(st, buf)
    } else if at_hand < st.remaining {
        let value_part = buf.subrange(st.cursor, buf.len() as int);
        list_noted(
            list_emit(
                st,
                buf,
                ListToken::ListElementCont { value_part },
                ListPart::ElementValue,
                false,
                st.remaining - at_hand,
                buf.len() as int,
            ),
            st.newline || holds_line_feed(value_part),
        )
    } else {
        let value_part = buf.subrange(st.cursor, st.cursor + st.remaining);
        list_noted(
            list_emit(
                st,
                buf,
                ListToken::ListElementEnd { value_part },
                ListPart::Elements,
                true,
                0,
                st.cursor + st.remaining,
            ),
            st.newline || holds_line_feed(value_part),
        )
    }
}

/// One call of `parse`: the token that it returns for a parser in state `st`
/// and a buffer that holds `buf`, and the state that it leaves.
///
/// A buffer shorter than the cursor is no buffer that this parser has
/// scanned: nothing is read and nothing changes.
#[verifier::opaque]
pub open spec fn list_step(st: ListModel, buf: Seq<u8>) -> ListStep {
    if st.cursor < 0 || st.cursor > buf.len() {
        ListStep { outcome: Ok(ListToken::InsufficientData), next: st }
    } else {
        match st.part {
            ListPart::Start => start_step(st, buf),
            ListPart::Elements => element_step(st, buf),
            ListPart::ElementValue => list_value_step(st, buf),
            ListPart::Complete => list_emit(
                st,
                buf,
                ListToken::Complete,
                ListPart::Complete,
                st.pending,
                st.remaining,
                st.cursor,
            ),
            ListPart::Failed(e) => list_fail(st, buf, e),
        }
    }
}

/// The state after the caller moved the unparsed bytes to the front of the
/// buffer.
pub open spec fn list_after_rewind(st: ListModel) -> ListModel {
    ListModel { cursor: 0, ..st }
}

} // verus!
