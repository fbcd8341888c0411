//! The list parser.

use vstd::prelude::*;
use vstd::slice::slice_subrange;
use crate::list::{
    counted_element, element_found, element_step, header_line, line_element, list_after_rewind,
    list_emit, list_fail, list_initial, list_step, list_value_step, list_wait, over_limit, Element,
    Header, ListKind, ListModel, ListPart,
};
use crate::list_laws::lemma_list_step_moves_forward;
use crate::parser::Parser;
use crate::scan::{
    digit, find, has_line_feed, lemma_seek_bounds, number, Mark, BAR, DOT, HASH, LF, TAB,
};
use crate::token::{list_outcome, PsycListParserError, PsycListParserResult};

verus! {

/// A tokenizer for lists.
pub struct PsycListParser {
    part: ListPart,
    kind: ListKind,
    limit: Option<usize>,
    pending: bool,
    newline: bool,
    remaining: usize,
    cursor: usize,
    unparsed: usize,
}

/// What the bytes of a header amount to, with the places as machine words.
#[derive(Clone, Copy, Debug, PartialEq, Eq)]
pub enum HeaderScan {
    More,
    Bad(PsycListParserError),
    Declared { limit: usize, kind: ListKind, end: usize },
}

/// What the bytes of an element amount to, with the places as machine words.
#[derive(Clone, Copy, Debug, PartialEq, Eq)]
pub enum ElementScan {
    More,
    Bad(PsycListParserError),
    Whole { value_start: usize, value_end: usize },
    Partial { value_start: usize, missing: usize },
}

impl View for HeaderScan {
    type V = Header;

    open spec fn view(&self) -> Header {
        match *self {
            HeaderScan::More => Header::More,
            HeaderScan::Bad(e) => Header::Bad(e),
            HeaderScan::Declared { limit, kind, end } => Header::Declared {
                limit: limit as int,
                kind,
                end: end as int,
            },
        }
    }
}

impl View for ElementScan {
    type V = Element;

    open spec fn view(&self) -> Element {
        match *self {
            ElementScan::More => Element::More,
            ElementScan::Bad(e) => Element::Bad(e),
            ElementScan::Whole { value_start, value_end } => Element::Whole {
                value_start: value_start as int,
                value_end: value_end as int,
            },
            ElementScan::Partial { value_start, missing } => Element::Partial {
                value_start: value_start as int,
                missing: missing as int,
            },
        }
    }
}

/// The limit of a list as a value.
pub open spec fn limit_view(limit: Option<usize>) -> Option<int> {
    match limit {
        Some(most) => Some(most as int),
        None => None,
    }
}

impl View for PsycListParser {
    type V = ListModel;

    closed spec fn view(&self) -> ListModel {
        ListModel {
            part: self.part,
            kind: self.kind,
            limit: limit_view(self.limit),
            pending: self.pending,
            newline: self.newline,
            remaining: self.remaining as int,
            cursor: self.cursor as int,
            unparsed: self.unparsed as int,
        }
    }
}

/// Tells whether an element of `length` bytes is longer than `limit`
/// permits.
pub fn exceeds(limit: Option<usize>, length: usize) -> (r: bool)
    ensures
        r == over_limit(limit_view(limit), length as int),
{
    match limit {
        Some(most) => length > most,
        None => false,
    }
}

/// Reads the header whose first digit stands at `at`.
pub fn scan_header(buffer: &[u8], at: usize) -> (r: HeaderScan)
    ensures
        r@ == header_line(buffer@, at as int),
{
    let len: usize = buffer.len();
    if at >= len {
        return HeaderScan::More;
    }
    let digits_end: usize = find(buffer, at, Mark::DigitsEnd);
    proof {
        lemma_seek_bounds(buffer@, at as int, Mark::DigitsEnd);
    }
    if digits_end >= len {
        return HeaderScan::More;
    }
    if buffer[digits_end] != TAB {
        return HeaderScan::Bad(PsycListParserError::GenericError);
    }
    match number(buffer, at, digits_end) {
        None => HeaderScan::Bad(PsycListParserError::InvalidElementLength),
        Some(limit) => {
            if len - digits_end <= 1 {
                HeaderScan::More
            } else if buffer[digits_end + 1] != DOT && buffer[digits_end + 1] != HASH {
                HeaderScan::Bad(PsycListParserError::InvalidType)
            } else if len - digits_end <= 2 {
                HeaderScan::More
            } else if buffer[digits_end + 2] != LF {
                HeaderScan::Bad(PsycListParserError::InvalidType)
            } else {
                let kind: ListKind = if buffer[digits_end + 1] == DOT {
                    ListKind::Lines
                } else {
                    ListKind::Counted
                };
                HeaderScan::Declared { limit, kind, end: digits_end + 3 }
            }
        },
    }
}

/// Reads the counted element whose number sign stands at `at`.
pub fn scan_counted(buffer: &[u8], at: usize, limit: Option<usize>) -> (r: ElementScan)
    ensures
        r@ == counted_element(buffer@, at as int, limit_view(limit)),
{
    let len: usize = buffer.len();
    if at >= len || len - at <= 1 {
        return ElementScan::More;
    }
    if !digit(buffer[at + 1]) {
        return ElementScan::Bad(PsycListParserError::NoElementLength);
    }
    let digits_end: usize = find(buffer, at + 1, Mark::DigitsEnd);
    proof {
        lemma_seek_bounds(buffer@, at + 1, Mark::DigitsEnd);
    }
    if digits_end >= len {
        return ElementScan::More;
    }
    if buffer[digits_end] != TAB {
        return ElementScan::Bad(PsycListParserError::InvalidElementLength);
    }
    match number(buffer, at + 1, digits_end) {
        None => ElementScan::Bad(PsycListParserError::InvalidElementLength),
        Some(length) => {
            if exceeds(limit, length) {
                ElementScan::Bad(PsycListParserError::InvalidElementLength)
            } else {
                let value_start: usize = digits_end + 1;
                let at_hand: usize = len - value_start;
                if at_hand >= length {
                    ElementScan::Whole { value_start, value_end: value_start + length }
                } else if at_hand > 0 {
                    ElementScan::Partial { value_start, missing: length - at_hand }
                } else {
                    ElementScan::More
                }
            }
        },
    }
}

/// Reads the line that begins at `at`.
pub fn scan_line(buffer: &[u8], at: usize, limit: Option<usize>) -> (r: ElementScan)
    ensures
        r@ == line_element(buffer@, at as int, limit_view(limit)),
{
    if at >= buffer.len() {
        return ElementScan::More;
    }
    let value_end: usize = find(buffer, at, Mark::LineFeed);
    proof {
        lemma_seek_bounds(buffer@, at as int, Mark::LineFeed);
    }
    if exceeds(limit, value_end - at) {
        ElementScan::Bad(PsycListParserError::InvalidElementLength)
    } else if value_end >= buffer.len() {
        ElementScan::More
    } else {
        ElementScan::Whole { value_start: at, value_end }
    }
}

impl PsycListParser {
    /// The numbers in the state of a parser are machine words.
    pub proof fn lemma_state_in_range(&self)
        ensures
            0 <= self@.remaining <= usize::MAX,
            0 <= self@.cursor <= usize::MAX,
            0 <= self@.unparsed <= usize::MAX,
    {
    }

    /// A parser in front of a list.
    pub fn new() -> (parser: PsycListParser)
        ensures
            parser@ == list_initial(),
    {
        PsycListParser {
            part: ListPart::Start,
            kind: ListKind::Mixed,
            limit: None,
            pending: false,
            newline: false,
            remaining: 0,
            cursor: 0,
            unparsed: 0,
        }
    }

    fn waits<'a>(&mut self, buffer: &'a [u8]) -> (r: Result<
        PsycListParserResult<'a>,
        PsycListParserError,
    >)
        requires
            old(self)@.cursor <= buffer@.len(),
        ensures
            final(self)@ == list_wait(old(self)@, buffer@).next,
            list_outcome(r) == list_wait(old(self)@, buffer@).outcome,
    {
        self.unparsed = buffer.len() - self.cursor;
        Ok(PsycListParserResult::InsufficientData)
    }

    fn fails<'a>(&mut self, buffer: &'a [u8], e: PsycListParserError) -> (r: Result<
        PsycListParserResult<'a>,
        PsycListParserError,
    >)
        requires
            old(self)@.cursor <= buffer@.len(),
        ensures
            final(self)@ == list_fail(old(self)@, buffer@, e).next,
            list_outcome(r) == list_fail(old(self)@, buffer@, e).outcome,
    {
        self.part = ListPart::Failed(e);
        self.unparsed = buffer.len() - self.cursor;
        Err(e)
    }

    fn emits<'a>(
        &mut self,
        buffer: &'a [u8],
        token: PsycListParserResult<'a>,
        part: ListPart,
        pending: bool,
        remaining: usize,
        cursor: usize,
    ) -> (r: Result<PsycListParserResult<'a>, PsycListParserError>)
        requires
            cursor <= buffer@.len(),
        ensures
            final(self)@ == list_emit(
                old(self)@,
                buffer@,
                token@,
                part,
                pending,
                remaining as int,
                cursor as int,
            ).next,
            list_outcome(r) == list_emit(
                old(self)@,
                buffer@,
                token@,
                part,
                pending,
                remaining as int,
                cursor as int,
            ).outcome,
    {
        self.part = part;
        self.pending = pending;
        self.remaining = remaining;
        self.cursor = cursor;
        self.unparsed = buffer.len() - cursor;
        Ok(token)
    }

    fn hand_out<'a>(&mut self, buffer: &'a [u8], element: ElementScan) -> (r: Result<
        PsycListParserResult<'a>,
        PsycListParserError,
    >)
        requires
            old(self)@.cursor <= buffer@.len(),
            match element {
                ElementScan::Whole { value_start, value_end } => value_start <= value_end
                    <= buffer@.len(),
                ElementScan::Partial { value_start, .. } => value_start <= buffer@.len(),
                _ => true,
            },
        ensures
            final(self)@ == element_found(old(self)@, buffer@, element@).next,
            list_outcome(r) == element_found(old(self)@, buffer@, element@).outcome,
    {
        match element {
            ElementScan::More => self.waits(buffer),
            ElementScan::Bad(e) => self.fails(buffer, e),
            ElementScan::Whole { value_start, value_end } => {
                let token = PsycListParserResult::ListElement {
                    value: slice_subrange(buffer, value_start, value_end),
                };
                let newline: bool = has_line_feed(buffer, value_start, value_end);
                let r = self.emits(buffer, token, ListPart::Elements, true, 0, value_end);
                self.newline = newline;
                r
            },
            ElementScan::Partial { value_start, missing } => {
                let token = PsycListParserResult::ListElementStart {
                    value_part: slice_subrange(buffer, value_start, buffer.len()),
                };
                let newline: bool = has_line_feed(buffer, value_start, buffer.len());
                let r = self.emits(
                    buffer,
                    token,
                    ListPart::ElementValue,
                    false,
                    missing,
                    buffer.len(),
                );
                self.newline = newline;
                r
            },
        }
    }

    fn parse_element<'a>(&mut self, buffer: &'a [u8]) -> (r: Result<
        PsycListParserResult<'a>,
        PsycListParserError,
    >)
        requires
            old(self)@.cursor <= buffer@.len(),
        ensures
            final(self)@ == element_step(old(self)@, buffer@).next,
            list_outcome(r) == element_step(old(self)@, buffer@).outcome,
    {
        let len: usize = buffer.len();
        let mut at: usize = self.cursor;
        if self.pending {
            if at >= len {
                return self.waits(buffer);
            }
            if buffer[at] != LF {
                let e: PsycListParserError = if self.newline {
                    PsycListParserError::InvalidElementLength
                } else {
                    PsycListParserError::GenericError
                };
                return self.fails(buffer, e);
            }
            at += 1;
        }
        if at >= len {
            return self.waits(buffer);
        }
        let first: u8 = buffer[at];
        if first == BAR {
            if len - at <= 1 {
                self.waits(buffer)
            } else if buffer[at + 1] == LF {
                self.emits(buffer, PsycListParserResult::Complete, ListPart::Complete, false, 0, at + 2)
            } else {
                self.fails(buffer, PsycListParserError::InvalidElementStart)
            }
        } else if first == HASH {
            match self.kind {
                ListKind::Lines => self.fails(buffer, PsycListParserError::InvalidElementType),
                _ => {
                    let element: ElementScan = scan_counted(buffer, at, self.limit);
                    proof {
                        lemma_seek_bounds(buffer@, at + 1, Mark::DigitsEnd);
                    }
                    self.hand_out(buffer, element)
                },
            }
        } else {
            match self.kind {
                ListKind::Counted => self.fails(buffer, PsycListParserError::InvalidElementType),
                _ => {
                    let element: ElementScan = scan_line(buffer, at, self.limit);
                    proof {
                        lemma_seek_bounds(buffer@, at as int, Mark::LineFeed);
                    }
                    self.hand_out(buffer, element)
                },
            }
        }
    }

    fn parse_value<'a>(&mut self, buffer: &'a [u8]) -> (r: Result<
        PsycListParserResult<'a>,
        PsycListParserError,
    >)
        requires
            old(self)@.cursor <= buffer@.len(),
        ensures
            final(self)@ == list_value_step(old(self)@, buffer@).next,
            list_outcome(r) == list_value_step(old(self)@, buffer@).outcome,
    {
        let len: usize = buffer.len();
        let at_hand: usize = len - self.cursor;
        if at_hand == 0 {
            self.waits(buffer)
        } else if at_hand < self.remaining {
            let token = PsycListParserResult::ListElementCont {
                value_part: slice_subrange(buffer, self.cursor, len),
            };
            let remaining: usize = self.remaining - at_hand;
            let newline: bool = self.newline || has_line_feed(buffer, self.cursor, len);
            let r = self.emits(buffer, token, ListPart::ElementValue, false, remaining, len);
            self.newline = newline;
            r
        } else {
            let value_end: usize = self.cursor + self.remaining;
            let token = PsycListParserResult::ListElementEnd {
                value_part: slice_subrange(buffer, self.cursor, value_end),
            };
            let newline: bool = self.newline || has_line_feed(buffer, self.cursor, value_end);
            let r = self.emits(buffer, token, ListPart::Elements, true, 0, value_end);
            self.newline = newline;
            r
        }
    }

    /// Reads what stands in front of the elements. Returns `None` where a
    /// header was read, which is no token, and the result of the call where
    /// it is known.
    fn advance<'a>(&mut self, buffer: &'a [u8]) -> (r: Option<
        Result<PsycListParserResult<'a>, PsycListParserError>,
    >)
        requires
            old(self)@.cursor <= buffer@.len(),
        ensures
            final(self)@.cursor <= buffer@.len(),
            match r {
                Some(result) => final(self)@ == list_step(old(self)@, buffer@).next
                    && list_outcome(result) == list_step(old(self)@, buffer@).outcome,
                None => old(self)@.part == ListPart::Start && final(self)@.part
                    == ListPart::Elements && list_step(final(self)@, buffer@) == list_step(
                    old(self)@,
                    buffer@,
                ),
            },
    {
        proof {
            reveal(list_step);
        }
        match self.part {
            ListPart::Start => {
                if self.cursor >= buffer.len() {
                    Some(self.waits(buffer))
                } else if digit(buffer[self.cursor]) {
                    match scan_header(buffer, self.cursor) {
                        HeaderScan::More => Some(self.waits(buffer)),
                        HeaderScan::Bad(e) => Some(self.fails(buffer, e)),
                        HeaderScan::Declared { limit, kind, end } => {
                            proof {
                                lemma_seek_bounds(buffer@, self.cursor as int, Mark::DigitsEnd);
                            }
                            self.part = ListPart::Elements;
                            self.kind = kind;
                            self.limit = Some(limit);
                            self.pending = false;
                            self.remaining = 0;
                            self.cursor = end;
                            self.unparsed = buffer.len() - end;
                            None
                        },
                    }
                } else {
                    self.part = ListPart::Elements;
                    Some(self.parse_element(buffer))
                }
            },
            ListPart::Elements => Some(self.parse_element(buffer)),
            ListPart::ElementValue => Some(self.parse_value(buffer)),
            ListPart::Complete => {
                let pending: bool = self.pending;
                let remaining: usize = self.remaining;
                let cursor: usize = self.cursor;
                Some(
                    self.emits(
                        buffer,
                        PsycListParserResult::Complete,
                        ListPart::Complete,
                        pending,
                        remaining,
                        cursor,
                    ),
                )
            },
            ListPart::Failed(e) => Some(self.fails(buffer, e)),
        }
    }

    /// Returns the next token of the list in `buffer`, which is scanned from
    /// the cursor on, and moves the cursor behind what the token took. The
    /// header of the list is read on the way and not handed out.
    ///
    /// Where the bytes at hand do not decide the token the result is
    /// `InsufficientData`, and nothing but a header is consumed. An error
    /// stops the parser for good: every later call returns the same error.
    pub fn parse<'a>(&mut self, buffer: &'a [u8]) -> (r: Result<
        PsycListParserResult<'a>,
        PsycListParserError,
    >)
        ensures
            final(self)@ == list_step(old(self)@, buffer@).next,
            list_outcome(r) == list_step(old(self)@, buffer@).outcome,
            old(self)@.cursor <= buffer@.len() ==> old(self)@.cursor <= final(self)@.cursor
                && final(self)@.cursor + final(self)@.unparsed == buffer@.len(),
    {
        proof {
            reveal(list_step);
        }
        if self.cursor > buffer.len() {
            return Ok(PsycListParserResult::InsufficientData);
        }
        loop
            invariant
                self@.cursor <= buffer@.len(),
                old(self)@.cursor <= buffer@.len(),
                list_step(self@, buffer@) == list_step(old(self)@, buffer@),
            decreases
                    (if self@.part == ListPart::Start {
                        1int
                    } else {
                        0int
                    }),
        {
            match self.advance(buffer) {
                Some(result) => {
                    proof {
                        lemma_list_step_moves_forward(old(self)@, buffer@);
                    }
                    return result;
                },
                None => {},
            }
        }
    }
}

impl Parser for PsycListParser {
    open spec fn unparsed_from(&self) -> int {
        self@.cursor
    }

    open spec fn unparsed_count(&self) -> int {
        self@.unparsed
    }

    fn unparsed_position(&self) -> (position: usize) {
        self.cursor
    }

    fn unparsed_length(&self) -> (length: usize) {
        self.unparsed
    }

    fn rewind(&mut self)
        ensures
            final(self)@ == list_after_rewind(old(self)@),
    {
        self.cursor = 0;
    }
}

} // verus!
