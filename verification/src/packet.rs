//! The grammar of a packet, as a function from the state of a parser and the
//! bytes of its buffer to a token and the next state.
//!
//! ```text
//! packet      = *routing *entity ( LF / body )
//! routing     = ":" line
//! entity      = ( "=" / "+" / "-" / "?" / "!" ) line
//! line        = name [ ( SP / TAB ) length ] TAB value LF
//! body        = name [ SP length ] LF value LF "|" LF
//! name        = 1*( ALPHA / DIGIT / "_" )
//! length      = 1*DIGIT
//! ```
//!
//! The modifiers of a packet end at the first line that opens with no
//! operator. An empty line there ends a packet that has no body. A name there
//! opens the body, and a packet with a body ends with the terminator line `|`.
//!
//! A value with a declared length is that many bytes, whatever they are; a
//! value without one ends in front of the next line feed, and the value of a
//! body without one in front of the next line feed that a terminator line
//! follows. After the tab of a modifier a digit always opens a length, so a
//! value that begins with a digit is sent with its length. Where lengths are
//! switched off a modifier is `name TAB value LF` and a body `name LF value`.

use vstd::prelude::*;
use crate::scan::{
    decimal, holds_line_feed, is_digit, is_keyword_byte, lemma_seek_bounds, seek, Mark, LF, SP, TAB,
};
use crate::token::{PsycParserError, Token};

verus! {

/// Which parts of the grammar a parser accepts.
#[derive(Clone, Copy, Debug, PartialEq, Eq)]
pub struct PsycParseFlags {
    /// Routing modifiers are accepted.
    pub routing: bool,
    /// Entity modifiers are accepted.
    pub entity: bool,
    /// Values may declare their length.
    pub length: bool,
}

/// Where in a packet a parser stands.
#[derive(Clone, Copy, Debug, PartialEq, Eq)]
pub enum Part {
    /// At a line of the packet, with no entity modifier seen so far.
    Modifiers,
    /// At a line of the packet, after an entity modifier.
    EntityModifiers,
    /// Inside the value of an entity modifier.
    EntityValue,
    /// Inside the value of the body.
    BodyValue,
    /// Behind the value of the body, in front of the terminator line.
    Terminator,
    /// Behind the packet.
    Complete,
    /// Asked to start anew.
    Reset,
    /// Asked to skip to the end of the next terminator line.
    Resync,
    /// Stopped by an error, for good.
    Failed(PsycParserError),
}

/// The state of a packet parser.
pub struct Model {
    pub flags: PsycParseFlags,
    pub part: Part,
    /// The value in front of the cursor is that of a modifier, and its line
    /// feed is still to come.
    pub pending: bool,
    /// The value in front of the cursor, as far as it has arrived, holds a
    /// line feed.
    pub newline: bool,
    /// Inside a value: how many of its bytes are still to come.
    pub remaining: int,
    /// How many bytes of the buffer are consumed.
    pub cursor: int,
    /// How many bytes of the buffer last parsed lie behind the cursor.
    pub unparsed: int,
}

/// A token, or the error that stopped the parser.
pub type Outcome = Result<Token, PsycParserError>;

/// What one call does: what it returns and the state it leaves.
pub struct Step {
    pub outcome: Outcome,
    pub next: Model,
}

/// What the bytes of a line amount to.
pub enum Line {
    /// The bytes at hand do not decide it.
    More,
    /// The line breaks the syntax.
    Bad(PsycParserError),
    /// Name and value are at hand: the name ends in front of `name_end`, the
    /// value lies from `value_start` to `value_end`.
    Whole { name_end: int, value_start: int, value_end: int },
    /// The name is at hand and the value begins at `value_start`, runs to
    /// the end of the buffer and lacks `missing` bytes.
    Partial { name_end: int, value_start: int, missing: int },
}

/// The operators of routing modifiers.
pub open spec fn is_routing_operator(b: u8) -> bool {
    b == 0x3a
}

/// The operators of entity modifiers.
pub open spec fn is_entity_operator(b: u8) -> bool {
    b == 0x3d || b == 0x2b || b == 0x2d || b == 0x3f || b == 0x21
}

/// The state of a parser that awaits the first line of a packet.
pub open spec fn initial(flags: PsycParseFlags) -> Model {
    Model {
        flags,
        part: Part::Modifiers,
        pending: false,
        newline: false,
        remaining: 0,
        cursor: 0,
        unparsed: 0,
    }
}

/// A value of `length` bytes that begins at `value_start`.
pub open spec fn sized(buf: Seq<u8>, name_end: int, value_start: int, length: int) -> Line {
    let at_hand = buf.len() - value_start;
    if at_hand >= length {
        Line::Whole { name_end, value_start, value_end: value_start + length }
    } else if at_hand > 0 {
        Line::Partial { name_end, value_start, missing: length - at_hand }
    } else {
        Line::More
    }
}

/// The length whose digits begin at `digits`, the tab behind it and the
/// value behind that.
pub open spec fn declared(buf: Seq<u8>, name_end: int, digits: int) -> Line {
    let digits_end = seek(buf, digits, Mark::DigitsEnd);
    if digits_end >= buf.len() {
        Line::More
    } else if buf[digits_end] != TAB {
        Line::Bad(PsycParserError::NoTabBeforeModifierValue)
    } else if decimal(buf, digits, digits_end) > usize::MAX {
        Line::Bad(PsycParserError::InvalidModifierLength)
    } else {
        sized(buf, name_end, digits_end + 1, decimal(buf, digits, digits_end) as int)
    }
}

/// The modifier whose operator stands at `at`.
pub open spec fn modifier_line(buf: Seq<u8>, at: int, lengths: bool) -> Line {
    let name_end = seek(buf, at + 1, Mark::KeywordEnd);
    if name_end >= buf.len() {
        Line::More
    } else if name_end == at + 1 {
        Line::Bad(PsycParserError::NoModifierName)
    } else if buf[name_end] != TAB && !(lengths && buf[name_end] == SP) {
        Line::Bad(PsycParserError::NoTabBeforeModifierValue)
    } else if name_end + 1 >= buf.len() {
        Line::More
    } else if lengths && is_digit(buf[name_end + 1]) {
        declared(buf, name_end, name_end + 1)
    } else if buf[name_end] == SP {
        Line::Bad(PsycParserError::NoModifierLength)
    } else {
        let value_end = seek(buf, name_end + 1, Mark::LineFeed);
        if value_end >= buf.len() {
            Line::More
        } else {
            Line::Whole { name_end, value_start: name_end + 1, value_end }
        }
    }
}

/// The body whose name begins at `at`.
pub open spec fn body_line(buf: Seq<u8>, at: int, lengths: bool) -> Line {
    let name_end = seek(buf, at, Mark::KeywordEnd);
    if name_end >= buf.len() {
        Line::More
    } else if buf[name_end] == LF {
        let value_end = seek(buf, name_end + 1, Mark::Terminator);
        if value_end + 3 <= buf.len() {
            Line::Whole { name_end, value_start: name_end + 1, value_end }
        } else {
            Line::More
        }
    } else if !(lengths && buf[name_end] == SP) {
        Line::Bad(PsycParserError::NoNewlineAfterMethod)
    } else if name_end + 1 >= buf.len() {
        Line::More
    } else if !is_digit(buf[name_end + 1]) {
        Line::Bad(PsycParserError::NoContentLength)
    } else {
        let digits_end = seek(buf, name_end + 1, Mark::DigitsEnd);
        if digits_end >= buf.len() {
            Line::More
        } else if buf[digits_end] != LF {
            Line::Bad(PsycParserError::NoNewlineAfterContentLength)
        } else if decimal(buf, name_end + 1, digits_end) > usize::MAX {
            Line::Bad(PsycParserError::NoContentLength)
        } else {
            sized(buf, name_end, digits_end + 1, decimal(buf, name_end + 1, digits_end) as int)
        }
    }
}

/// The call that cannot decide: nothing is consumed and nothing changes but
/// the count of the bytes behind the cursor.
pub open spec fn wait(st: Model, buf: Seq<u8>) -> Step {
    Step {
        outcome: Ok(Token::InsufficientData),
        next: Model { unparsed: buf.len() - st.cursor, ..st },
    }
}

/// The call that meets a breach of the syntax: the parser stops where it
/// stands.
pub open spec fn fail(st: Model, buf: Seq<u8>, e: PsycParserError) -> Step {
    Step {
        outcome: Err(e),
        next: Model { part: Part::Failed(e), unparsed: buf.len() - st.cursor, ..st },
    }
}

/// The call that returns `token` and leaves the cursor at `cursor`.
pub open spec fn emit(
    st: Model,
    buf: Seq<u8>,
    token: Token,
    part: Part,
    pending: bool,
    remaining: int,
    cursor: int,
) -> Step {
    Step {
        outcome: Ok(token),
        next: Model {
            flags: st.flags,
            part,
            pending,
            newline: st.newline,
            remaining,
            cursor,
            unparsed: buf.len() - cursor,
        },
    }
}

/// The call `step`, which returned a value of a modifier or a part of one,
/// with the note whether a line feed is in what has arrived of the value.
pub open spec fn noted(step: Step, newline: bool) -> Step {
    Step { outcome: step.outcome, next: Model { newline, ..step.next } }
}

/// A routing modifier at `at`.
pub open spec fn routing_step(st: Model, buf: Seq<u8>, at: int) -> Step {
    if !st.flags.routing || st.part != Part::Modifiers {
        fail(st, buf, PsycParserError::GenericError)
    } else {
        match modifier_line(buf, at, st.flags.length) {
            Line::More => wait(st, buf),
            Line::Partial { .. } => wait(st, buf),
            Line::Bad(e) => fail(st, buf, e),
            Line::Whole { name_end, value_start, value_end } => noted(
                emit(
                    st,
                    buf,
                    Token::RoutingModifier {
                        operator: buf[at] as char,
                        name: buf.subrange(at + 1, name_end),
                        value: buf.subrange(value_start, value_end),
                    },
                    Part::Modifiers,
                    true,
                    0,
                    value_end,
                ),
                holds_line_feed(buf.subrange(value_start, value_end)),
            ),
        }
    }
}

/// An entity modifier at `at`.
pub open spec fn entity_step(st: Model, buf: Seq<u8>, at: int) -> Step {
    if !st.flags.entity {
        fail(st, buf, PsycParserError::GenericError)
    } else {
        match modifier_line(buf, at, st.flags.length) {
            Line::More => wait(st, buf),
            Line::Bad(e) => fail(st, buf, e),
            Line::Whole { name_end, value_start, value_end } => noted(
                emit(
                    st,
                    buf,
                    Token::EntityModifier {
                        operator: buf[at] as char,
                        name: buf.subrange(at + 1, name_end),
                        value: buf.subrange(value_start, value_end),
                    },
                    Part::EntityModifiers,
                    true,
                    0,
                    value_end,
                ),
                holds_line_feed(buf.subrange(value_start, value_end)),
            ),
            Line::Partial { name_end, value_start, missing } => noted(
                emit(
                    st,
                    buf,
                    Token::EntityModifierStart {
                        operator: buf[at] as char,
                        name: buf.subrange(at + 1, name_end),
                        value_part: buf.subrange(value_start, buf.len() as int),
                    },
                    Part::EntityValue,
                    false,
                    missing,
                    buf.len() as int,
                ),
                holds_line_feed(buf.subrange(value_start, buf.len() as int)),
            ),
        }
    }
}

/// A body at `at`.
pub open spec fn body_step(st: Model, buf: Seq<u8>, at: int) -> Step {
    match body_line(buf, at, st.flags.length) {
        Line::More => wait(st, buf),
        Line::Bad(e) => fail(st, buf, e),
        Line::Whole { name_end, value_start, value_end } => emit(
            st,
            buf,
            Token::Body {
                name: buf.subrange(at, name_end),
                value: buf.subrange(value_start, value_end),
            },
            Part::Terminator,
            false,
            0,
            value_end,
        ),
        Line::Partial { name_end, value_start, missing } => emit(
            st,
            buf,
            Token::BodyStart {
                name: buf.subrange(at, name_end),
                value_part: buf.subrange(value_start, buf.len() as int),
            },
            Part::BodyValue,
            false,
            missing,
            buf.len() as int,
        ),
    }
}

/// A call at a line of the packet.
pub open spec fn line_step(st: Model, buf: Seq<u8>) -> Step {
    let at = if st.pending {
        st.cursor + 1
    } else {
        st.cursor
    };
    if st.pending && st.cursor < buf.len() && buf[st.cursor] != LF {
        fail(
            st,
            buf,
            if st.newline {
                PsycParserError::InvalidModifierLength
            } else {
                PsycParserError::NoNewlineAfterModifier
            },
        )
    } else if at >= buf.len() {
        wait(st, buf)
    } else if is_routing_operator(buf[at]) {
        routing_step(st, buf, at)
    } else if is_entity_operator(buf[at]) {
        entity_step(st, buf, at)
    } else if buf[at] == LF {
        emit(st, buf, Token::Complete, Part::Complete, false, 0, at + 1)
    } else if is_keyword_byte(buf[at]) {
        body_step(st, buf, at)
    } else {
        fail(st, buf, PsycParserError::GenericError)
    }
}

/// A call inside a value that is sent in parts. `body` tells whose value.
pub open spec fn value_step(st: Model, buf: Seq<u8>, body: bool) -> Step {
    let at_hand = buf.len() - st.cursor;
    if at_hand == 0 {
        wait(st, buf)
    } else if at_hand < st.remaining {
        let value_part = buf.subrange(st.cursor, buf.len() as int);
        noted(
            emit(
                st,
                buf,
                if body {
                    Token::BodyCont { value_part }
                } else {
                    Token::EntityModifierCont { value_part }
                },
                st.part,
                false,
                st.remaining - at_hand,
                buf.len() as int,
            ),
            st.newline || (!body && holds_line_feed(value_part)),
        )
    } else {
        let value_part = buf.subrange(st.cursor, st.cursor + st.remaining);
        noted(
            emit(
                st,
                buf,
                if body {
                    Token::BodyEnd { value_part }
                } else {
                    Token::EntityModifierEnd { value_part }
                },
                if body {
                    Part::Terminator
                } else {
                    Part::EntityModifiers
                },
                !body,
                0,
                st.cursor + st.remaining,
            ),
            st.newline || (!body && holds_line_feed(value_part)),
        )
    }
}

/// A call in front of the terminator line of a packet with a body.
pub open spec fn terminator_step(st: Model, buf: Seq<u8>) -> Step {
    let at = st.cursor;
    if at + 3 > buf.len() {
        wait(st, buf)
    } else if buf[at] == LF && buf[at + 1] == crate::scan::BAR && buf[at + 2] == LF {
        emit(st, buf, Token::Complete, Part::Complete, false, 0, at + 3)
    } else {
        fail(st, buf, PsycParserError::NoEndDelimiter)
    }
}

/// A call of a parser that was asked to skip to the next packet.
pub open spec fn resync_step(st: Model, buf: Seq<u8>) -> Step {
    let at = seek(buf, st.cursor, Mark::Terminator);
    if at + 3 <= buf.len() {
        emit(st, buf, Token::StateSync, Part::Modifiers, false, 0, at + 3)
    } else {
        wait(st, buf)
    }
}

/// One call of `parse`: the token that it returns for a parser in state `st`
/// and a buffer that holds `buf`, and the state that it leaves.
///
/// A buffer shorter than the cursor is no buffer that this parser has
/// scanned: nothing is read and nothing changes.
#[verifier::opaque]
pub open spec fn step(st: Model, buf: Seq<u8>) -> Step {
    if st.cursor < 0 || st.cursor > buf.len() {
        Step { outcome: Ok(Token::InsufficientData), next: st }
    } else {
        match st.part {
            Part::Modifiers => line_step(st, buf),
            Part::EntityModifiers => line_step(st, buf),
            Part::EntityValue => value_step(st, buf, false),
            Part::BodyValue => value_step(st, buf, true),
            Part::Terminator => terminator_step(st, buf),
            Part::Complete => emit(
                st,
                buf,
                Token::Complete,
                Part::Complete,
                st.pending,
                st.remaining,
                st.cursor,
            ),
            Part::Reset => emit(
                st,
                buf,
                Token::StateReset,
                Part::Modifiers,
                false,
                0,
                st.cursor,
            ),
            Part::Resync => resync_step(st, buf),
            Part::Failed(e) => fail(st, buf, e),
        }
    }
}

/// The state after the caller asked for a new start: the next call returns
/// `StateReset`. A parser that an error stopped stays stopped.
pub open spec fn after_reset(st: Model) -> Model {
    match st.part {
        Part::Failed(_) => st,
        _ => Model { part: Part::Reset, pending: false, remaining: 0, ..st },
    }
}

/// The state after the caller asked to skip to the next packet: the next
/// calls look for the end of a terminator line. A parser that an error
/// stopped stays stopped.
pub open spec fn after_resync(st: Model) -> Model {
    match st.part {
        Part::Failed(_) => st,
        _ => Model { part: Part::Resync, pending: false, remaining: 0, ..st },
    }
}

/// The state after the caller moved the unparsed bytes to the front of the
/// buffer.
pub open spec fn after_rewind(st: Model) -> Model {
    Model { cursor: 0, ..st }
}

/// The places of a modifier line lie in the buffer, in order.
pub proof fn lemma_modifier_line_bounds(buf: Seq<u8>, at: int, lengths: bool)
    requires
        0 <= at < buf.len(),
    ensures
        match modifier_line(buf, at, lengths) {
            Line::Whole { name_end, value_start, value_end } => at + 1 < name_end < value_start
                <= value_end <= buf.len(),
            Line::Partial { name_end, value_start, missing } => at + 1 < name_end < value_start
                < buf.len() && 0 < missing,
            _ => true,
        },
{
    lemma_seek_bounds(buf, at + 1, Mark::KeywordEnd);
    let name_end = seek(buf, at + 1, Mark::KeywordEnd);
    if name_end + 1 < buf.len() {
        lemma_seek_bounds(buf, name_end + 1, Mark::DigitsEnd);
        lemma_seek_bounds(buf, name_end + 1, Mark::LineFeed);
    }
}

/// The places of a body line lie in the buffer, in order.
pub proof fn lemma_body_line_bounds(buf: Seq<u8>, at: int, lengths: bool)
    requires
        0 <= at < buf.len(),
    ensures
        match body_line(buf, at, lengths) {
            Line::Whole { name_end, value_start, value_end } => at <= name_end < value_start
                <= value_end <= buf.len(),
            Line::Partial { name_end, value_start, missing } => at <= name_end < value_start
                < buf.len() && 0 < missing,
            _ => true,
        },
{
    lemma_seek_bounds(buf, at, Mark::KeywordEnd);
    let name_end = seek(buf, at, Mark::KeywordEnd);
    if name_end + 1 <= buf.len() {
        lemma_seek_bounds(buf, name_end + 1, Mark::DigitsEnd);
        lemma_seek_bounds(buf, name_end + 1, Mark::Terminator);
    }
}

} // verus!
