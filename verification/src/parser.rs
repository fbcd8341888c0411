//! The packet parser.

use vstd::prelude::*;
use vstd::slice::slice_subrange;
use crate::laws::lemma_step_moves_forward;
use crate::packet::{
    after_reset, after_resync, after_rewind, body_line, body_step, declared, emit, entity_step,
    fail, initial, is_entity_operator, is_routing_operator, lemma_body_line_bounds,
    lemma_modifier_line_bounds, line_step, modifier_line, resync_step, routing_step, sized, step,
    terminator_step, value_step, wait, Line, Model, Part, PsycParseFlags,
};
use crate::scan::{
    digit, find, has_line_feed, is_keyword_byte, keyword_byte, lemma_seek_bounds, number, Mark, BAR,
    LF, SP, TAB,
};
use crate::token::{outcome, PsycParserError, PsycParserResult};

verus! {

/// A parser whose buffer is kept by the caller: where its cursor stands and
/// how much lies behind it.
pub trait Parser {
    /// The index of the first byte that is not consumed.
    spec fn unparsed_from(&self) -> int;

    /// The number of bytes behind the cursor in the buffer last parsed.
    spec fn unparsed_count(&self) -> int;

    /// The index of the first byte that is not consumed.
    fn unparsed_position(&self) -> (position: usize)
        ensures
            position == self.unparsed_from(),
    ;

    /// The number of bytes behind the cursor in the buffer last parsed.
    fn unparsed_length(&self) -> (length: usize)
        ensures
            length == self.unparsed_count(),
    ;

    /// Tells the parser that the unparsed bytes now stand at the front of
    /// the buffer: the next call of `parse` scans from the first byte.
    fn rewind(&mut self)
        ensures
            final(self).unparsed_from() == 0,
            final(self).unparsed_count() == old(self).unparsed_count(),
    ;

    /// Moves the unparsed bytes of `buffer`, the buffer last parsed, to its
    /// front and returns their number. The bytes behind them stay as they
    /// are. The parser itself is not changed: tell it with `rewind` that its
    /// buffer now begins with these bytes.
    fn copy_unparsed_into_buffer(&self, buffer: &mut [u8]) -> (copied: usize)
        requires
            self.unparsed_from() + self.unparsed_count() <= old(buffer)@.len(),
        ensures
            copied == self.unparsed_count(),
            final(buffer)@ == old(buffer)@.subrange(
                self.unparsed_from(),
                self.unparsed_from() + self.unparsed_count(),
            ) + old(buffer)@.skip(self.unparsed_count()),
    {
        let from: usize = self.unparsed_position();
        let count: usize = self.unparsed_length();
        let total: usize = buffer.len();
        let mut i: usize = 0;
        while i < count
            invariant
                from == self.unparsed_from(),
                count == self.unparsed_count(),
                from + count <= buffer@.len(),
                buffer@.len() == old(buffer)@.len(),
                buffer@.len() == total,
                i <= count,
                forall|j: int| 0 <= j < i ==> buffer@[j] == old(buffer)@[from + j],
                forall|j: int| i <= j < buffer@.len() ==> buffer@[j] == old(buffer)@[j],
            decreases count - i,
        {
            let b: u8 = buffer[from + i];
            buffer[i] = b;
            i += 1;
        }
        assert(buffer@ =~= old(buffer)@.subrange(from as int, from + count) + old(buffer)@.skip(
            count as int,
        ));
        count
    }
}

/// A tokenizer for packets.
pub struct PsycParser {
    flags: PsycParseFlags,
    part: Part,
    pending: bool,
    newline: bool,
    remaining: usize,
    cursor: usize,
    unparsed: usize,
}

/// What the bytes of a line amount to, with the places as machine words.
#[derive(Clone, Copy, Debug, PartialEq, Eq)]
pub enum LineScan {
    More,
    Bad(PsycParserError),
    Whole { name_end: usize, value_start: usize, value_end: usize },
    Partial { name_end: usize, value_start: usize, missing: usize },
}

impl View for LineScan {
    type V = Line;

    open spec fn view(&self) -> Line {
        match *self {
            LineScan::More => Line::More,
            LineScan::Bad(e) => Line::Bad(e),
            LineScan::Whole { name_end, value_start, value_end } => Line::Whole {
                name_end: name_end as int,
                value_start: value_start as int,
                value_end: value_end as int,
            },
            LineScan::Partial { name_end, value_start, missing } => Line::Partial {
                name_end: name_end as int,
                value_start: value_start as int,
                missing: missing as int,
            },
        }
    }
}

impl View for PsycParser {
    type V = Model;

    closed spec fn view(&self) -> Model {
        Model {
            flags: self.flags,
            part: self.part,
            pending: self.pending,
            newline: self.newline,
            remaining: self.remaining as int,
            cursor: self.cursor as int,
            unparsed: self.unparsed as int,
        }
    }
}

impl PsycParseFlags {
    /// Every part of the grammar.
    pub fn all() -> (flags: PsycParseFlags)
        ensures
            flags == (PsycParseFlags { routing: true, entity: true, length: true }),
    {
        PsycParseFlags { routing: true, entity: true, length: true }
    }
}

/// Tells whether `b` is the operator of a routing modifier.
pub fn routing_operator(b: u8) -> (r: bool)
    ensures
        r == is_routing_operator(b),
{
    b == 0x3a
}

/// Tells whether `b` is the operator of an entity modifier.
pub fn entity_operator(b: u8) -> (r: bool)
    ensures
        r == is_entity_operator(b),
{
    b == 0x3d || b == 0x2b || b == 0x2d || b == 0x3f || b == 0x21
}

fn scan_sized(buffer: &[u8], name_end: usize, value_start: usize, length: usize) -> (r: LineScan)
    requires
        value_start <= buffer@.len(),
    ensures
        r@ == sized(buffer@, name_end as int, value_start as int, length as int),
{
    let at_hand: usize = buffer.len() - value_start;
    if at_hand >= length {
        LineScan::Whole { name_end, value_start, value_end: value_start + length }
    } else if at_hand > 0 {
        LineScan::Partial { name_end, value_start, missing: length - at_hand }
    } else {
        LineScan::More
    }
}

fn scan_declared(buffer: &[u8], name_end: usize, digits: usize) -> (r: LineScan)
    requires
        digits <= buffer@.len(),
    ensures
        r@ == declared(buffer@, name_end as int, digits as int),
{
    let digits_end: usize = find(buffer, digits, Mark::DigitsEnd);
    proof {
        lemma_seek_bounds(buffer@, digits as int, Mark::DigitsEnd);
    }
    if digits_end >= buffer.len() {
        LineScan::More
    } else if buffer[digits_end] != TAB {
        LineScan::Bad(PsycParserError::NoTabBeforeModifierValue)
    } else {
        match number(buffer, digits, digits_end) {
            None => LineScan::Bad(PsycParserError::InvalidModifierLength),
            Some(length) => scan_sized(buffer, name_end, digits_end + 1, length),
        }
    }
}

/// Reads the modifier whose operator stands at `at`.
pub fn scan_modifier(buffer: &[u8], at: usize, lengths: bool) -> (r: LineScan)
    ensures
        r@ == modifier_line(buffer@, at as int, lengths),
{
    let len: usize = buffer.len();
    if at >= len {
        return LineScan::More;
    }
    let name_end: usize = find(buffer, at + 1, Mark::KeywordEnd);
    proof {
        lemma_seek_bounds(buffer@, at + 1, Mark::KeywordEnd);
    }
    if name_end >= len {
        LineScan::More
    } else if name_end == at + 1 {
        LineScan::Bad(PsycParserError::NoModifierName)
    } else if buffer[name_end] != TAB && !(lengths && buffer[name_end] == SP) {
        LineScan::Bad(PsycParserError::NoTabBeforeModifierValue)
    } else if name_end + 1 >= len {
        LineScan::More
    } else if lengths && digit(buffer[name_end + 1]) {
        scan_declared(buffer, name_end, name_end + 1)
    } else if buffer[name_end] == SP {
        LineScan::Bad(PsycParserError::NoModifierLength)
    } else {
        let value_end: usize = find(buffer, name_end + 1, Mark::LineFeed);
        if value_end >= len {
            LineScan::More
        } else {
            LineScan::Whole { name_end, value_start: name_end + 1, value_end }
        }
    }
}

/// Reads the body whose name begins at `at`.
pub fn scan_body(buffer: &[u8], at: usize, lengths: bool) -> (r: LineScan)
    ensures
        r@ == body_line(buffer@, at as int, lengths),
{
    let len: usize = buffer.len();
    if at >= len {
        return LineScan::More;
    }
    let name_end: usize = find(buffer, at, Mark::KeywordEnd);
    proof {
        lemma_seek_bounds(buffer@, at as int, Mark::KeywordEnd);
    }
    if name_end >= len {
        LineScan::More
    } else if buffer[name_end] == LF {
        let value_end: usize = find(buffer, name_end + 1, Mark::Terminator);
        proof {
            lemma_seek_bounds(buffer@, name_end + 1, Mark::Terminator);
        }
        if len - value_end >= 3 {
            LineScan::Whole { name_end, value_start: name_end + 1, value_end }
        } else {
            LineScan::More
        }
    } else if !(lengths && buffer[name_end] == SP) {
        LineScan::Bad(PsycParserError::NoNewlineAfterMethod)
    } else if name_end + 1 >= len {
        LineScan::More
    } else if !digit(buffer[name_end + 1]) {
        LineScan::Bad(PsycParserError::NoContentLength)
    } else {
        let digits_end: usize = find(buffer, name_end + 1, Mark::DigitsEnd);
        proof {
            lemma_seek_bounds(buffer@, name_end + 1, Mark::DigitsEnd);
        }
        if digits_end >= len {
            LineScan::More
        } else if buffer[digits_end] != LF {
            LineScan::Bad(PsycParserError::NoNewlineAfterContentLength)
        } else {
            match number(buffer, name_end + 1, digits_end) {
                None => LineScan::Bad(PsycParserError::NoContentLength),
                Some(length) => scan_sized(buffer, name_end, digits_end + 1, length),
            }
        }
    }
}

impl PsycParser {
    /// The numbers in the state of a parser are machine words.
    pub proof fn lemma_state_in_range(&self)
        ensures
            0 <= self@.remaining <= usize::MAX,
            0 <= self@.cursor <= usize::MAX,
            0 <= self@.unparsed <= usize::MAX,
    {
    }

    /// A parser that accepts every part of the grammar and awaits the first
    /// line of a packet.
    pub fn new() -> (parser: PsycParser)
        ensures
            parser@ == initial(PsycParseFlags { routing: true, entity: true, length: true }),
    {
        PsycParser::with_flags(PsycParseFlags::all())
    }

    /// A parser that accepts the parts of the grammar that `flags` names and
    /// awaits the first line of a packet.
    pub fn with_flags(flags: PsycParseFlags) -> (parser: PsycParser)
        ensures
            parser@ == initial(flags),
    {
        PsycParser {
            flags,
            part: Part::Modifiers,
            pending: false,
            newline: false,
            remaining: 0,
            cursor: 0,
            unparsed: 0,
        }
    }

    fn waits<'a>(&mut self, buffer: &'a [u8]) -> (r: Result<
        PsycParserResult<'a>,
        PsycParserError,
    >)
        requires
            old(self)@.cursor <= buffer@.len(),
        ensures
            final(self)@ == wait(old(self)@, buffer@).next,
            outcome(r) == wait(old(self)@, buffer@).outcome,
    {
        self.unparsed = buffer.len() - self.cursor;
        Ok(PsycParserResult::InsufficientData)
    }

    fn fails<'a>(&mut self, buffer: &'a [u8], e: PsycParserError) -> (r: Result<
        PsycParserResult<'a>,
        PsycParserError,
    >)
        requires
            old(self)@.cursor <= buffer@.len(),
        ensures
            final(self)@ == fail(old(self)@, buffer@, e).next,
            outcome(r) == fail(old(self)@, buffer@, e).outcome,
    {
        self.part = Part::Failed(e);
        self.unparsed = buffer.len() - self.cursor;
        Err(e)
    }

    fn emits<'a>(
        &mut self,
        buffer: &'a [u8],
        token: PsycParserResult<'a>,
        part: Part,
        pending: bool,
        remaining: usize,
        cursor: usize,
    ) -> (r: Result<PsycParserResult<'a>, PsycParserError>)
        requires
            cursor <= buffer@.len(),
        ensures
            final(self)@ == emit(
                old(self)@,
                buffer@,
                token@,
                part,
                pending,
                remaining as int,
                cursor as int,
            ).next,
            outcome(r) == emit(
                old(self)@,
                buffer@,
                token@,
                part,
                pending,
                remaining as int,
                cursor as int,
            ).outcome,
    {
        self.part = part;
        self.pending = pending;
        self.remaining = remaining;
        self.cursor = cursor;
        self.unparsed = buffer.len() - cursor;
        Ok(token)
    }

}

impl PsycParser {
    fn parse_routing<'a>(&mut self, buffer: &'a [u8], at: usize) -> (r: Result<
        PsycParserResult<'a>,
        PsycParserError,
    >)
        requires
            old(self)@.cursor <= at < buffer@.len(),
            is_routing_operator(buffer@[at as int]),
        ensures
            final(self)@ == routing_step(old(self)@, buffer@, at as int).next,
            outcome(r) == routing_step(old(self)@, buffer@, at as int).outcome,
    {
        let allowed: bool = match self.part {
            Part::Modifiers => self.flags.routing,
            _ => false,
        };
        if !allowed {
            return self.fails(buffer, PsycParserError::GenericError);
        }
        match scan_modifier(buffer, at, self.flags.length) {
            LineScan::More => self.waits(buffer),
            LineScan::Partial { .. } => self.waits(buffer),
            LineScan::Bad(e) => self.fails(buffer, e),
            LineScan::Whole { name_end, value_start, value_end } => {
                proof {
                    lemma_modifier_line_bounds(buffer@, at as int, self.flags.length);
                }
                let token = PsycParserResult::RoutingModifier {
                    operator: buffer[at] as char,
                    name: slice_subrange(buffer, at + 1, name_end),
                    value: slice_subrange(buffer, value_start, value_end),
                };
                let newline: bool = has_line_feed(buffer, value_start, value_end);
                let r = self.emits(buffer, token, Part::Modifiers, true, 0, value_end);
                self.newline = newline;
                r
            },
        }
    }

    fn parse_entity<'a>(&mut self, buffer: &'a [u8], at: usize) -> (r: Result<
        PsycParserResult<'a>,
        PsycParserError,
    >)
        requires
            old(self)@.cursor <= at < buffer@.len(),
            is_entity_operator(buffer@[at as int]),
        ensures
            final(self)@ == entity_step(old(self)@, buffer@, at as int).next,
            outcome(r) == entity_step(old(self)@, buffer@, at as int).outcome,
    {
        if !self.flags.entity {
            return self.fails(buffer, PsycParserError::GenericError);
        }
        proof {
            lemma_modifier_line_bounds(buffer@, at as int, self.flags.length);
        }
        match scan_modifier(buffer, at, self.flags.length) {
            LineScan::More => self.waits(buffer),
            LineScan::Bad(e) => self.fails(buffer, e),
            LineScan::Whole { name_end, value_start, value_end } => {
                let token = PsycParserResult::EntityModifier {
                    operator: buffer[at] as char,
                    name: slice_subrange(buffer, at + 1, name_end),
                    value: slice_subrange(buffer, value_start, value_end),
                };
                let newline: bool = has_line_feed(buffer, value_start, value_end);
                let r = self.emits(buffer, token, Part::EntityModifiers, true, 0, value_end);
                self.newline = newline;
                r
            },
            LineScan::Partial { name_end, value_start, missing } => {
                let token = PsycParserResult::EntityModifierStart {
                    operator: buffer[at] as char,
                    name: slice_subrange(buffer, at + 1, name_end),
                    value_part: slice_subrange(buffer, value_start, buffer.len()),
                };
                let newline: bool = has_line_feed(buffer, value_start, buffer.len());
                let r = self.emits(buffer, token, Part::EntityValue, false, missing, buffer.len());
                self.newline = newline;
                r
            },
        }
    }

    fn parse_body<'a>(&mut self, buffer: &'a [u8], at: usize) -> (r: Result<
        PsycParserResult<'a>,
        PsycParserError,
    >)
        requires
            old(self)@.cursor <= at < buffer@.len(),
            is_keyword_byte(buffer@[at as int]),
        ensures
            final(self)@ == body_step(old(self)@, buffer@, at as int).next,
            outcome(r) == body_step(old(self)@, buffer@, at as int).outcome,
    {
        proof {
            lemma_body_line_bounds(buffer@, at as int, self.flags.length);
        }
        match scan_body(buffer, at, self.flags.length) {
            LineScan::More => self.waits(buffer),
            LineScan::Bad(e) => self.fails(buffer, e),
            LineScan::Whole { name_end, value_start, value_end } => {
                let token = PsycParserResult::Body {
                    name: slice_subrange(buffer, at, name_end),
                    value: slice_subrange(buffer, value_start, value_end),
                };
                self.emits(buffer, token, Part::Terminator, false, 0, value_end)
            },
            LineScan::Partial { name_end, value_start, missing } => {
                let token = PsycParserResult::BodyStart {
                    name: slice_subrange(buffer, at, name_end),
                    value_part: slice_subrange(buffer, value_start, buffer.len()),
                };
                self.emits(buffer, token, Part::BodyValue, false, missing, buffer.len())
            },
        }
    }

    fn parse_line<'a>(&mut self, buffer: &'a [u8]) -> (r: Result<
        PsycParserResult<'a>,
        PsycParserError,
    >)
        requires
            old(self)@.cursor <= buffer@.len(),
        ensures
            final(self)@ == line_step(old(self)@, buffer@).next,
            outcome(r) == line_step(old(self)@, buffer@).outcome,
    {
        let len: usize = buffer.len();
        let mut at: usize = self.cursor;
        if self.pending {
            if at >= len {
                return self.waits(buffer);
            }
            if buffer[at] != LF {
                let e: PsycParserError = if self.newline {
                    PsycParserError::InvalidModifierLength
                } else {
                    PsycParserError::NoNewlineAfterModifier
                };
                return self.fails(buffer, e);
            }
            at += 1;
        }
        if at >= len {
            return self.waits(buffer);
        }
        let first: u8 = buffer[at];
        if routing_operator(first) {
            self.parse_routing(buffer, at)
        } else if entity_operator(first) {
            self.parse_entity(buffer, at)
        } else if first == LF {
            self.emits(buffer, PsycParserResult::Complete, Part::Complete, false, 0, at + 1)
        } else if keyword_byte(first) {
            self.parse_body(buffer, at)
        } else {
            self.fails(buffer, PsycParserError::GenericError)
        }
    }

    fn parse_value<'a>(&mut self, buffer: &'a [u8], body: bool) -> (r: Result<
        PsycParserResult<'a>,
        PsycParserError,
    >)
        requires
            old(self)@.cursor <= buffer@.len(),
        ensures
            final(self)@ == value_step(old(self)@, buffer@, body).next,
            outcome(r) == value_step(old(self)@, buffer@, body).outcome,
    {
        let len: usize = buffer.len();
        let at_hand: usize = len - self.cursor;
        if at_hand == 0 {
            self.waits(buffer)
        } else if at_hand < self.remaining {
            let value_part = slice_subrange(buffer, self.cursor, len);
            let token = if body {
                PsycParserResult::BodyCont { value_part }
            } else {
                PsycParserResult::EntityModifierCont { value_part }
            };
            let part: Part = self.part;
            let remaining: usize = self.remaining - at_hand;
            let newline: bool = self.newline || (!body && has_line_feed(buffer, self.cursor, len));
            let r = self.emits(buffer, token, part, false, remaining, len);
            self.newline = newline;
            r
        } else {
            let value_end: usize = self.cursor + self.remaining;
            let value_part = slice_subrange(buffer, self.cursor, value_end);
            let token = if body {
                PsycParserResult::BodyEnd { value_part }
            } else {
                PsycParserResult::EntityModifierEnd { value_part }
            };
            let part: Part = if body {
                Part::Terminator
            } else {
                Part::EntityModifiers
            };
            let newline: bool = self.newline || (!body && has_line_feed(
                buffer,
                self.cursor,
                value_end,
            ));
            let r = self.emits(buffer, token, part, !body, 0, value_end);
            self.newline = newline;
            r
        }
    }

    fn parse_terminator<'a>(&mut self, buffer: &'a [u8]) -> (r: Result<
        PsycParserResult<'a>,
        PsycParserError,
    >)
        requires
            old(self)@.cursor <= buffer@.len(),
        ensures
            final(self)@ == terminator_step(old(self)@, buffer@).next,
            outcome(r) == terminator_step(old(self)@, buffer@).outcome,
    {
        let at: usize = self.cursor;
        if buffer.len() - at < 3 {
            self.waits(buffer)
        } else if buffer[at] == LF && buffer[at + 1] == BAR && buffer[at + 2] == LF {
            self.emits(buffer, PsycParserResult::Complete, Part::Complete, false, 0, at + 3)
        } else {
            self.fails(buffer, PsycParserError::NoEndDelimiter)
        }
    }

    fn parse_resync<'a>(&mut self, buffer: &'a [u8]) -> (r: Result<
        PsycParserResult<'a>,
        PsycParserError,
    >)
        requires
            old(self)@.cursor <= buffer@.len(),
        ensures
            final(self)@ == resync_step(old(self)@, buffer@).next,
            outcome(r) == resync_step(old(self)@, buffer@).outcome,
    {
        let at: usize = find(buffer, self.cursor, Mark::Terminator);
        proof {
            lemma_seek_bounds(buffer@, self.cursor as int, Mark::Terminator);
        }
        if buffer.len() - at >= 3 {
            self.emits(buffer, PsycParserResult::StateSync, Part::Modifiers, false, 0, at + 3)
        } else {
            self.waits(buffer)
        }
    }

    /// Returns the next token of the packet in `buffer`, which is scanned
    /// from the cursor on, and moves the cursor behind what the token took.
    ///
    /// Where the bytes at hand do not decide the token the result is
    /// `InsufficientData`, and the parser is left as it was. An error stops
    /// the parser for good: every later call returns the same error.
    pub fn parse<'a>(&mut self, buffer: &'a [u8]) -> (r: Result<
        PsycParserResult<'a>,
        PsycParserError,
    >)
        ensures
            final(self)@ == step(old(self)@, buffer@).next,
            outcome(r) == step(old(self)@, buffer@).outcome,
            old(self)@.cursor <= buffer@.len() ==> old(self)@.cursor <= final(self)@.cursor
                && final(self)@.cursor + final(self)@.unparsed == buffer@.len(),
    {
        proof {
            reveal(step);
            if self@.cursor <= buffer@.len() {
                lemma_step_moves_forward(self@, buffer@);
            }
        }
        if self.cursor > buffer.len() {
            return Ok(PsycParserResult::InsufficientData);
        }
        match self.part {
            Part::Modifiers => self.parse_line(buffer),
            Part::EntityModifiers => self.parse_line(buffer),
            Part::EntityValue => self.parse_value(buffer, false),
            Part::BodyValue => self.parse_value(buffer, true),
            Part::Terminator => self.parse_terminator(buffer),
            Part::Complete => {
                let pending: bool = self.pending;
                let remaining: usize = self.remaining;
                let cursor: usize = self.cursor;
                self.emits(
                    buffer,
                    PsycParserResult::Complete,
                    Part::Complete,
                    pending,
                    remaining,
                    cursor,
                )
            },
            Part::Reset => {
                let cursor: usize = self.cursor;
                self.emits(buffer, PsycParserResult::StateReset, Part::Modifiers, false, 0, cursor)
            },
            Part::Resync => self.parse_resync(buffer),
            Part::Failed(e) => self.fails(buffer, e),
        }
    }
}

impl PsycParser {
    /// Asks for a new start, as after a complete packet: the next call of
    /// `parse` returns `StateReset` and the one after it the first token of
    /// the packet that begins at the cursor.
    pub fn reset(&mut self)
        ensures
            final(self)@ == after_reset(old(self)@),
    {
        match self.part {
            Part::Failed(_) => {},
            _ => {
                self.part = Part::Reset;
                self.pending = false;
                self.remaining = 0;
            },
        }
    }

    /// Asks to give up the packet at hand and to skip to the next: the next
    /// calls of `parse` look for the end of a terminator line, and the one
    /// that finds it returns `StateSync`.
    pub fn resync(&mut self)
        ensures
            final(self)@ == after_resync(old(self)@),
    {
        match self.part {
            Part::Failed(_) => {},
            _ => {
                self.part = Part::Resync;
                self.pending = false;
                self.remaining = 0;
            },
        }
    }

}

impl Parser for PsycParser {
    open spec fn unparsed_from(&self) -> int {
        self@.cursor
    }

    open spec fn unparsed_count(&self) -> int {
        self@.unparsed
    }

    fn unparsed_position(&self) -> (position: usize) {
        self.cursor
    }

    fn unparsed_length(&self) -> (length: usize) {
        self.unparsed
    }

    fn rewind(&mut self)
        ensures
            final(self)@ == after_rewind(old(self)@),
    {
        self.cursor = 0;
    }
}

} // verus!
