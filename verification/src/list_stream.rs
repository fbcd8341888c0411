//! A list that arrives in parts gives the elements that it gives as a whole.
//!
//! The caller of a parser receives bytes, lets the parser parse them, and
//! moves the unparsed bytes to the front of its buffer, in any order it
//! likes. Whatever the order, the elements that the tokens carry, with the
//! parts of each put together, are those that one parser returns when it is
//! given the whole list at once.

use vstd::prelude::*;
use crate::list::{
    behind_header, counted_element, element_found, element_step, header_line, line_element,
    list_after_rewind, list_step, Element, Header, ListModel, ListOutcome, ListPart, ListStep,
};
use crate::list_laws::{
    lemma_list_step_by_part, lemma_list_step_ignores_unparsed, lemma_list_step_moves_forward,
    list_aligned, list_waits,
};
use crate::scan::{
    holds_line_feed, is_digit, lemma_decimal_same, lemma_line_feed_in_either, lemma_seek_bounds,
    lemma_seek_window, seek, Mark,
};
use crate::token::{ListToken, PsycListParserError};
use crate::window::lemma_subrange_window;

verus! {

/// What a run of tokens says, with the parts of each element put together.
pub enum ListItem {
    Element { value: Seq<u8> },
    Complete,
}

/// The items that a run of tokens has given so far, and the bytes of the
/// element that is still arriving.
pub struct ListAssembly {
    pub done: Seq<ListItem>,
    pub open: Option<Seq<u8>>,
}

/// The assembly after one more reply of the parser.
pub open spec fn absorb(a: ListAssembly, outcome: ListOutcome) -> ListAssembly {
    match outcome {
        Err(_) => a,
        Ok(token) => match token {
            ListToken::InsufficientData => a,
            ListToken::Complete => ListAssembly { done: a.done.push(ListItem::Complete), ..a },
            ListToken::ListElement { value } => ListAssembly {
                done: a.done.push(ListItem::Element { value }),
                ..a
            },
            ListToken::ListElementStart { value_part } => ListAssembly {
                done: a.done,
                open: Some(value_part),
            },
            ListToken::ListElementCont { value_part } => match a.open {
                Some(value) => ListAssembly { done: a.done, open: Some(value + value_part) },
                None => a,
            },
            ListToken::ListElementEnd { value_part } => match a.open {
                Some(value) => ListAssembly {
                    done: a.done.push(ListItem::Element { value: value + value_part }),
                    open: None,
                },
                None => a,
            },
        },
    }
}

/// The assembly after a run of replies.
pub open spec fn assembled(a: ListAssembly, outcomes: Seq<ListOutcome>) -> ListAssembly
    decreases outcomes.len(),
{
    if outcomes.len() == 0 {
        a
    } else {
        assembled(absorb(a, outcomes[0]), outcomes.skip(1))
    }
}

/// The items that a run of replies gives.
pub open spec fn items(outcomes: Seq<ListOutcome>) -> Seq<ListItem> {
    assembled(ListAssembly { done: Seq::empty(), open: None }, outcomes).done
}

/// Whether `outcome` is `Complete`.
pub open spec fn completes(outcome: ListOutcome) -> bool {
    outcome == Ok::<ListToken, PsycListParserError>(ListToken::Complete)
}

/// Whether a run of replies ends with `Complete` and holds no other.
pub open spec fn ends_complete(outcomes: Seq<ListOutcome>) -> bool {
    &&& outcomes.len() > 0
    &&& completes(outcomes.last())
    &&& forall|i: int| 0 <= i < outcomes.len() - 1 ==> !completes(#[trigger] outcomes[i])
}

/// The replies of a parser that is given the whole stream, call after call.
pub open spec fn whole(st: ListModel, stream: Seq<u8>, calls: nat) -> Seq<ListOutcome>
    decreases calls,
{
    if calls == 0 {
        Seq::empty()
    } else {
        seq![list_step(st, stream).outcome] + whole(
            list_step(st, stream).next,
            stream,
            (calls - 1) as nat,
        )
    }
}

/// Whether a parser in state `st` that is given the whole stream returns
/// tokens, never an error and never `InsufficientData`, and with call number
/// `calls` the first `Complete`: the stream holds a list.
pub open spec fn accepts(st: ListModel, stream: Seq<u8>, calls: nat) -> bool {
    &&& ends_complete(whole(st, stream, calls))
    &&& forall|i: int|
        0 <= i < calls ==> (#[trigger] whole(st, stream, calls)[i]) is Ok && !list_waits(
            whole(st, stream, calls)[i],
        )
}

/// What the caller of a parser does.
pub enum ListAction {
    /// It has the parser parse the buffer.
    Parse,
    /// It moves the unparsed bytes to the front of the buffer and tells the
    /// parser.
    Relocate,
    /// It appends this many bytes of the stream to the buffer.
    Receive(int),
}

/// A parser and its caller's buffer: the bytes of the stream from `offset`
/// up to `received`.
pub struct ListFeed {
    pub parser: ListModel,
    pub offset: int,
    pub received: int,
}

/// The bytes in the buffer.
pub open spec fn buffer_of(f: ListFeed, stream: Seq<u8>) -> Seq<u8> {
    stream.subrange(f.offset, f.received)
}

/// Parser and buffer after an action. Bytes that the stream does not hold
/// are not received.
pub open spec fn act(f: ListFeed, stream: Seq<u8>, action: ListAction) -> ListFeed {
    match action {
        ListAction::Parse => ListFeed {
            parser: list_step(f.parser, buffer_of(f, stream)).next,
            ..f
        },
        ListAction::Relocate => ListFeed {
            parser: list_after_rewind(f.parser),
            offset: f.offset + f.parser.cursor,
            ..f
        },
        ListAction::Receive(count) => if 0 <= count && f.received + count <= stream.len() {
            ListFeed { received: f.received + count, ..f }
        } else {
            f
        },
    }
}

/// The replies of the parser in the course of the actions.
pub open spec fn fed(f: ListFeed, stream: Seq<u8>, actions: Seq<ListAction>) -> Seq<ListOutcome>
    decreases actions.len(),
{
    if actions.len() == 0 {
        Seq::empty()
    } else {
        let rest = fed(act(f, stream, actions[0]), stream, actions.skip(1));
        if actions[0] is Parse {
            seq![list_step(f.parser, buffer_of(f, stream)).outcome] + rest
        } else {
            rest
        }
    }
}

/// The buffer is a part of the stream and the cursor is in the buffer.
pub open spec fn steady(f: ListFeed, stream: Seq<u8>) -> bool {
    0 <= f.offset && 0 <= f.parser.cursor && 0 <= f.parser.remaining && f.offset
        + f.parser.cursor <= f.received <= stream.len()
}

/// The state `st` with its cursor counted from `shift` bytes further back.
pub open spec fn at_offset(st: ListModel, shift: int) -> ListModel {
    ListModel { cursor: st.cursor + shift, ..st }
}

/// An element as it is found in the stream, given as it is found in a window
/// that begins at `lo` and ends at `hi`.
pub open spec fn element_in_stream(element: Element, s: Seq<u8>, lo: int, hi: int) -> Element {
    match element {
        Element::More => Element::More,
        Element::Bad(e) => Element::Bad(e),
        Element::Whole { value_start, value_end } => Element::Whole {
            value_start: value_start + lo,
            value_end: value_end + lo,
        },
        Element::Partial { value_start, missing } => if s.len() - hi >= missing {
            Element::Whole { value_start: value_start + lo, value_end: hi + missing }
        } else {
            Element::Partial { value_start: value_start + lo, missing: missing - (s.len() - hi) }
        },
    }
}

/// A header that a window decides is the same header in the stream.
pub proof fn lemma_header_window(s: Seq<u8>, lo: int, hi: int, at: int)
    requires
        0 <= lo,
        0 <= at,
        lo + at < hi <= s.len(),
    ensures
        match header_line(s.subrange(lo, hi), at) {
            Header::More => true,
            Header::Bad(e) => header_line(s, lo + at) == Header::Bad(e),
            Header::Declared { limit, kind, end } => at < end <= hi - lo && 0 <= limit
                && header_line(s, lo + at) == (Header::Declared { limit, kind, end: end + lo }),
        },
{
    let w = s.subrange(lo, hi);
    lemma_seek_window(s, lo, hi, at, Mark::DigitsEnd);
    lemma_seek_bounds(w, at, Mark::DigitsEnd);
    let digits_end = seek(w, at, Mark::DigitsEnd);
    if digits_end < w.len() {
        lemma_decimal_same(w, at, digits_end, s, -lo);
    }
}

/// A counted element that a window decides is the same element in the
/// stream.
pub proof fn lemma_counted_window(s: Seq<u8>, lo: int, hi: int, at: int, limit: Option<int>)
    requires
        0 <= lo,
        0 <= at,
        lo + at < hi <= s.len(),
    ensures
        !(counted_element(s.subrange(lo, hi), at, limit) is More) ==> counted_element(
            s,
            lo + at,
            limit,
        ) == element_in_stream(counted_element(s.subrange(lo, hi), at, limit), s, lo, hi),
        match counted_element(s.subrange(lo, hi), at, limit) {
            Element::Whole { value_start, value_end } => at < value_start <= value_end <= hi
                - lo,
            Element::Partial { value_start, missing } => at < value_start < hi - lo && 0
                < missing,
            _ => true,
        },
{
    let w = s.subrange(lo, hi);
    if at + 1 < w.len() {
        lemma_seek_window(s, lo, hi, at + 1, Mark::DigitsEnd);
        lemma_seek_bounds(w, at + 1, Mark::DigitsEnd);
        let digits_end = seek(w, at + 1, Mark::DigitsEnd);
        if digits_end < w.len() {
            lemma_decimal_same(w, at + 1, digits_end, s, -lo);
        }
    }
}

/// A line that a window decides is the same line in the stream.
pub proof fn lemma_line_window(s: Seq<u8>, lo: int, hi: int, at: int, limit: Option<int>)
    requires
        0 <= lo,
        0 <= at,
        lo + at < hi <= s.len(),
    ensures
        !(line_element(s.subrange(lo, hi), at, limit) is More) ==> line_element(s, lo + at, limit)
            == element_in_stream(line_element(s.subrange(lo, hi), at, limit), s, lo, hi),
        match line_element(s.subrange(lo, hi), at, limit) {
            Element::Whole { value_start, value_end } => at == value_start <= value_end < hi
                - lo,
            Element::Partial { .. } => false,
            _ => true,
        },
{
    let w = s.subrange(lo, hi);
    lemma_seek_window(s, lo, hi, at, Mark::LineFeed);
    lemma_seek_bounds(w, at, Mark::LineFeed);
}

/// Whether a parser stands inside a value.
pub open spec fn inside_value(part: ListPart) -> bool {
    part == ListPart::ElementValue
}

/// What the first part of an element on a window has to do with the call on
/// the whole stream: that call returns the whole element, which begins with
/// the part, or it returns a part too, where the stream ends inside the
/// element.
pub open spec fn starts(a: ListStep, b: ListStep, lo: int, hi: int, stream: Seq<u8>) -> bool {
    let part = a.outcome->Ok_0->ListElementStart_value_part;
    let missing = a.next.remaining;
    &&& a.next.part == ListPart::ElementValue
    &&& a.next.cursor + lo == hi
    &&& missing > 0
    &&& b.next.kind == a.next.kind
    &&& b.next.limit == a.next.limit
    &&& b.outcome is Ok
    &&& if hi + missing <= stream.len() {
        &&& b.outcome->Ok_0 == (ListToken::ListElement {
            value: part + stream.subrange(hi, hi + missing),
        })
        &&& b.next.part == ListPart::Elements
        &&& b.next.pending
        &&& b.next.newline == (a.next.newline || holds_line_feed(
            stream.subrange(hi, hi + missing),
        ))
        &&& b.next.remaining == 0
        &&& b.next.cursor == hi + missing
    } else {
        &&& b.outcome->Ok_0 is ListElementStart
        &&& b.next.part == ListPart::ElementValue
        &&& b.next.cursor == stream.len()
    }
}

/// What the call `a` on the window from `lo` up to `hi` has to do with the
/// call `b` on the whole stream, for a parser that does not stand inside a
/// value. After a call that waits, which has consumed at most the header,
/// the call on the stream is still to come; a call that begins an element is
/// described by `starts`; any other call returns the same and leaves the
/// same state on the window and on the stream.
pub open spec fn agrees(a: ListStep, b: ListStep, lo: int, hi: int, stream: Seq<u8>) -> bool {
    match a.outcome {
        Err(_) => b.outcome == a.outcome,
        Ok(token) => match token {
            ListToken::InsufficientData => !inside_value(a.next.part) && list_step(
                at_offset(a.next, lo),
                stream,
            ) == b,
            ListToken::ListElementStart { .. } => starts(a, b, lo, hi, stream),
            ListToken::ListElementCont { .. } => false,
            ListToken::ListElementEnd { .. } => false,
            _ => b.outcome == a.outcome && list_aligned(a.next, lo, b.next) && !inside_value(
                a.next.part,
            ),
        },
    }
}

/// An element that a window decides, handed out on the window and on the
/// stream.
pub proof fn lemma_element_found_window(
    p: ListModel,
    s: ListModel,
    stream: Seq<u8>,
    lo: int,
    hi: int,
    element: Element,
)
    requires
        0 <= lo <= hi <= stream.len(),
        list_aligned(p, lo, s),
        match element {
            Element::More => false,
            Element::Bad(_) => true,
            Element::Whole { value_start, value_end } => 0 <= value_start <= value_end <= hi
                - lo,
            Element::Partial { value_start, missing } => 0 <= value_start < hi - lo && 0
                < missing,
        },
    ensures
        agrees(
            element_found(p, stream.subrange(lo, hi), element),
            element_found(s, stream, element_in_stream(element, stream, lo, hi)),
            lo,
            hi,
            stream,
        ),
{
    match element {
        Element::Whole { value_start, value_end } => {
            lemma_subrange_window(stream, lo, hi, value_start, value_end);
        },
        Element::Partial { value_start, missing } => {
            lemma_subrange_window(stream, lo, hi, value_start, hi - lo);
            if hi + missing <= stream.len() {
                assert(stream.subrange(lo + value_start, hi + missing) =~= stream.subrange(
                    lo + value_start,
                    hi,
                ) + stream.subrange(hi, hi + missing));
                lemma_line_feed_in_either(
                    stream.subrange(lo + value_start, hi),
                    stream.subrange(hi, hi + missing),
                );
            }
        },
        _ => {},
    }
}

/// A call at an element on a window and on the stream.
pub proof fn lemma_element_step_window(
    p: ListModel,
    s: ListModel,
    stream: Seq<u8>,
    lo: int,
    hi: int,
)
    requires
        0 <= lo,
        0 <= p.cursor,
        lo + p.cursor <= hi <= stream.len(),
        list_aligned(p, lo, s),
        p.part == ListPart::Elements,
    ensures
        agrees(element_step(p, stream.subrange(lo, hi)), element_step(s, stream), lo, hi, stream),
{
    reveal(list_step);
    let w = stream.subrange(lo, hi);
    let at = if p.pending {
        p.cursor + 1
    } else {
        p.cursor
    };
    let a = element_step(p, w);
    let b = element_step(s, stream);
    if a.outcome is Ok && a.outcome->Ok_0 is InsufficientData {
        if at < w.len() {
            lemma_counted_window(stream, lo, hi, at, p.limit);
            lemma_line_window(stream, lo, hi, at, p.limit);
        }
        assert(a.next == crate::list::list_wait(p, w).next);
        lemma_list_step_ignores_unparsed(at_offset(a.next, lo), s, stream);
    } else if at < w.len() && !(p.pending && w[p.cursor] != crate::scan::LF) {
        if w[at] == crate::scan::BAR {
        } else if w[at] == crate::scan::HASH {
            if p.kind != crate::list::ListKind::Lines {
                lemma_counted_window(stream, lo, hi, at, p.limit);
                lemma_element_found_window(p, s, stream, lo, hi, counted_element(w, at, p.limit));
            }
        } else {
            if p.kind != crate::list::ListKind::Counted {
                lemma_line_window(stream, lo, hi, at, p.limit);
                lemma_element_found_window(p, s, stream, lo, hi, line_element(w, at, p.limit));
            }
        }
    }
}

/// A call on a window of the stream and the same call on the whole stream,
/// for a parser that does not stand inside a value.
pub proof fn lemma_step_window(p: ListModel, s: ListModel, stream: Seq<u8>, lo: int, hi: int)
    requires
        0 <= lo,
        0 <= p.cursor,
        lo + p.cursor <= hi <= stream.len(),
        list_aligned(p, lo, s),
        !inside_value(p.part),
    ensures
        agrees(list_step(p, stream.subrange(lo, hi)), list_step(s, stream), lo, hi, stream),
{
    reveal(list_step);
    let w = stream.subrange(lo, hi);
    let a = list_step(p, w);
    let b = list_step(s, stream);
    match p.part {
        ListPart::Elements => {
            lemma_element_step_window(p, s, stream, lo, hi);
        },
        ListPart::Start => {
            if p.cursor < w.len() {
                if is_digit(w[p.cursor]) {
                    lemma_header_window(stream, lo, hi, p.cursor);
                    match header_line(w, p.cursor) {
                        Header::Declared { limit, kind, end } => {
                            let pw = behind_header(p, w, header_line(w, p.cursor));
                            let ps = behind_header(s, stream, header_line(stream, s.cursor));
                            lemma_element_step_window(pw, ps, stream, lo, hi);
                        },
                        Header::More => {
                            lemma_list_step_ignores_unparsed(at_offset(a.next, lo), s, stream);
                        },
                        Header::Bad(_) => {},
                    }
                } else {
                    let pw = ListModel { part: ListPart::Elements, ..p };
                    let ps = ListModel { part: ListPart::Elements, ..s };
                    lemma_element_step_window(pw, ps, stream, lo, hi);
                }
            } else {
                lemma_list_step_ignores_unparsed(at_offset(a.next, lo), s, stream);
            }
        },
        _ => {},
    }
}

/// The items that are done stay in front of what a run of replies adds.
pub proof fn lemma_assembled_prefix(a: ListAssembly, outcomes: Seq<ListOutcome>)
    ensures
        assembled(a, outcomes).done == a.done + assembled(
            ListAssembly { done: Seq::empty(), open: a.open },
            outcomes,
        ).done,
    decreases outcomes.len(),
{
    let e = ListAssembly { done: Seq::empty(), open: a.open };
    if outcomes.len() == 0 {
        assert(a.done =~= a.done + e.done);
    } else {
        let a1 = absorb(a, outcomes[0]);
        let e1 = absorb(e, outcomes[0]);
        assert(a1.open == e1.open);
        assert(a1.done =~= a.done + e1.done);
        lemma_assembled_prefix(a1, outcomes.skip(1));
        lemma_assembled_prefix(e1, outcomes.skip(1));
        let tail = assembled(
            ListAssembly { done: Seq::empty(), open: a1.open },
            outcomes.skip(1),
        ).done;
        assert((a.done + e1.done) + tail =~= a.done + (e1.done + tail));
    }
}

/// There is one reply for each call.
pub proof fn lemma_whole_len(st: ListModel, stream: Seq<u8>, calls: nat)
    ensures
        whole(st, stream, calls).len() == calls,
    decreases calls,
{
    if calls > 0 {
        lemma_whole_len(list_step(st, stream).next, stream, (calls - 1) as nat);
    }
}

/// Behind the first element of a list the parser accepts the rest of the
/// list, and the items of the list are that element and the items of the
/// rest.
pub proof fn lemma_whole_first(st: ListModel, stream: Seq<u8>, calls: nat, value: Seq<u8>)
    requires
        accepts(st, stream, calls),
        list_step(st, stream).outcome == Ok::<ListToken, PsycListParserError>(
            ListToken::ListElement { value },
        ),
    ensures
        calls >= 2,
        accepts(list_step(st, stream).next, stream, (calls - 1) as nat),
        items(whole(st, stream, calls)) == seq![ListItem::Element { value }] + items(
            whole(list_step(st, stream).next, stream, (calls - 1) as nat),
        ),
{
    let w = whole(st, stream, calls);
    let next = list_step(st, stream).next;
    lemma_whole_len(st, stream, calls);
    assert(w[0] == list_step(st, stream).outcome);
    assert(calls >= 2) by {
        if calls == 1 {
            assert(w.last() == w[0]);
        }
    }
    let rest = whole(next, stream, (calls - 1) as nat);
    lemma_whole_len(next, stream, (calls - 1) as nat);
    assert(w.skip(1) =~= rest);
    assert(rest.last() == w.last());
    assert forall|i: int| 0 <= i < rest.len() - 1 implies !completes(#[trigger] rest[i]) by {
        assert(rest[i] == w[i + 1]);
    }
    assert forall|i: int| 0 <= i < calls - 1 implies (#[trigger] rest[i]) is Ok && !list_waits(
        rest[i],
    ) by {
        assert(rest[i] == w[i + 1]);
    }
    let empty = ListAssembly { done: Seq::empty(), open: None };
    lemma_assembled_prefix(absorb(empty, w[0]), rest);
    assert(absorb(empty, w[0]).done =~= seq![ListItem::Element { value }]);
}

/// A list whose first token is `Complete` has this one item.
pub proof fn lemma_whole_complete(st: ListModel, stream: Seq<u8>, calls: nat)
    requires
        accepts(st, stream, calls),
        completes(list_step(st, stream).outcome),
    ensures
        items(whole(st, stream, calls)) == seq![ListItem::Complete],
{
    let w = whole(st, stream, calls);
    lemma_whole_len(st, stream, calls);
    assert(w[0] == list_step(st, stream).outcome);
    assert(calls == 1);
    assert(w.skip(1) =~= Seq::<ListOutcome>::empty());
    let empty = ListAssembly { done: Seq::empty(), open: None };
    assert(absorb(empty, w[0]).done =~= seq![ListItem::Complete]);
    assert(assembled(absorb(empty, w[0]), w.skip(1)) == absorb(empty, w[0]));
}

/// A parser that is given a whole list never begins an element that the
/// stream does not hold.
pub proof fn lemma_whole_never_opens(st: ListModel, stream: Seq<u8>, calls: nat)
    requires
        accepts(st, stream, calls),
        list_step(st, stream).outcome is Ok,
        list_step(st, stream).outcome->Ok_0 is ListElementStart,
        inside_value(list_step(st, stream).next.part),
    ensures
        list_step(st, stream).next.cursor != stream.len(),
{
    let w = whole(st, stream, calls);
    let next = list_step(st, stream).next;
    lemma_whole_len(st, stream, calls);
    assert(w[0] == list_step(st, stream).outcome);
    if calls == 1 {
        assert(w.last() == w[0]);
    } else if next.cursor == stream.len() {
        let rest = whole(next, stream, (calls - 1) as nat);
        lemma_whole_len(next, stream, (calls - 1) as nat);
        assert(w[1] == rest[0]);
        assert(rest[0] == list_step(next, stream).outcome);
        lemma_list_step_by_part(next, stream);
        assert(list_waits(list_step(next, stream).outcome));
    }
}

/// The replies of the actions after the first.
pub open spec fn later(f: ListFeed, stream: Seq<u8>, actions: Seq<ListAction>) -> Seq<
    ListOutcome,
> {
    fed(act(f, stream, actions[0]), stream, actions.skip(1))
}

/// What the first action, a call of the parser, adds to the replies.
pub proof fn lemma_fed_parse(
    f: ListFeed,
    stream: Seq<u8>,
    actions: Seq<ListAction>,
    a: ListAssembly,
)
    requires
        actions.len() > 0,
        actions[0] is Parse,
        ends_complete(fed(f, stream, actions)),
    ensures
        assembled(a, fed(f, stream, actions)) == assembled(
            absorb(a, list_step(f.parser, buffer_of(f, stream)).outcome),
            later(f, stream, actions),
        ),
        if completes(list_step(f.parser, buffer_of(f, stream)).outcome) {
            later(f, stream, actions).len() == 0
        } else {
            ends_complete(later(f, stream, actions))
        },
{
    let all = fed(f, stream, actions);
    let rest = later(f, stream, actions);
    let first = list_step(f.parser, buffer_of(f, stream)).outcome;
    assert(all == seq![first] + rest);
    assert(all[0] == first);
    assert(all.skip(1) =~= rest);
    if completes(first) {
        if rest.len() > 0 {
            assert(completes(all[0]));
        }
    } else {
        assert(rest.len() > 0) by {
            if rest.len() == 0 {
                assert(all.last() == all[0]);
            }
        }
        assert(rest.last() == all.last());
        assert forall|i: int| 0 <= i < rest.len() - 1 implies !completes(#[trigger] rest[i]) by {
            assert(rest[i] == all[i + 1]);
        }
    }
}

/// How a parser that is fed in parts stands to the parser that was given the
/// whole stream. Outside a value the next call of the two returns the same.
/// Inside a value the second has returned the whole element and is behind
/// it; the first has returned the bytes up to its cursor, and `owed` holds
/// what the parts will have given when the element ends.
pub open spec fn in_step(
    f: ListFeed,
    open: Option<Seq<u8>>,
    s: ListModel,
    owed: Seq<ListItem>,
    stream: Seq<u8>,
) -> bool {
    let p = f.parser;
    let at = f.offset + p.cursor;
    if inside_value(p.part) {
        &&& open is Some
        &&& p.remaining > 0
        &&& at + p.remaining <= stream.len()
        &&& owed == seq![
            ListItem::Element { value: open->Some_0 + stream.subrange(at, at + p.remaining) },
        ]
        &&& s.kind == p.kind
        &&& s.limit == p.limit
        &&& s.newline == (p.newline || holds_line_feed(stream.subrange(at, at + p.remaining)))
        &&& s.remaining == 0
        &&& s.cursor == at + p.remaining
        &&& s.part == ListPart::Elements
        &&& s.pending
    } else {
        open is None && owed == Seq::<ListItem>::empty() && list_step(
            at_offset(p, f.offset),
            stream,
        ) == list_step(s, stream)
    }
}

/// What is owed after a call inside a value: nothing more once the element
/// has ended.
pub open spec fn owed_inside(outcome: ListOutcome, owed: Seq<ListItem>) -> Seq<ListItem> {
    if outcome is Ok && outcome->Ok_0 is ListElementEnd {
        Seq::empty()
    } else {
        owed
    }
}

/// A call inside a value keeps the two parsers in step.
pub proof fn lemma_call_inside_value(
    f: ListFeed,
    a: ListAssembly,
    s: ListModel,
    owed: Seq<ListItem>,
    stream: Seq<u8>,
)
    requires
        steady(f, stream),
        in_step(f, a.open, s, owed, stream),
        inside_value(f.parser.part),
    ensures
        ({
            let here = list_step(f.parser, buffer_of(f, stream));
            let a1 = absorb(a, here.outcome);
            let owed1 = owed_inside(here.outcome, owed);
            &&& !completes(here.outcome)
            &&& in_step(act(f, stream, ListAction::Parse), a1.open, s, owed1, stream)
            &&& a1.done + owed1 == a.done + owed
        }),
{
    let p = f.parser;
    let buf = buffer_of(f, stream);
    let here = list_step(p, buf);
    let a1 = absorb(a, here.outcome);
    let owed1 = owed_inside(here.outcome, owed);
    let at = f.offset + p.cursor;
    let at_hand = f.received - at;
    lemma_list_step_by_part(p, buf);
    if at_hand == 0 {
        assert(a1.done + owed1 =~= a.done + owed);
    } else if at_hand < p.remaining {
        assert(buf.subrange(p.cursor, buf.len() as int) =~= stream.subrange(at, f.received));
        assert(a.open->Some_0 + stream.subrange(at, at + p.remaining) =~= (a.open->Some_0
            + stream.subrange(at, f.received)) + stream.subrange(f.received, at + p.remaining));
        assert(stream.subrange(at, at + p.remaining) =~= stream.subrange(at, f.received)
            + stream.subrange(f.received, at + p.remaining));
        lemma_line_feed_in_either(
            stream.subrange(at, f.received),
            stream.subrange(f.received, at + p.remaining),
        );
        assert(a1.done + owed1 =~= a.done + owed);
    } else {
        assert(buf.subrange(p.cursor, p.cursor + p.remaining) =~= stream.subrange(
            at,
            at + p.remaining,
        ));
        assert(a1.done + owed1 =~= a.done + owed);
        lemma_list_step_ignores_unparsed(at_offset(here.next, f.offset), s, stream);
    }
}

/// What is owed after a call outside a value: the whole element, where the
/// call returned its first part.
pub open spec fn owed_outside(f: ListFeed, here: ListStep, stream: Seq<u8>) -> Seq<ListItem> {
    if here.outcome is Ok && here.outcome->Ok_0 is ListElementStart {
        seq![
            ListItem::Element {
                value: here.outcome->Ok_0->ListElementStart_value_part + stream.subrange(
                    f.received,
                    f.received + here.next.remaining,
                ),
            },
        ]
    } else {
        Seq::empty()
    }
}

/// A call outside a value keeps the two parsers in step: where the parser
/// that is fed in parts waits, the other does nothing; where it returns
/// `Complete`, so does the other; where it returns an element or the first
/// part of one, the other returns the whole element.
pub proof fn lemma_call_outside_value(
    f: ListFeed,
    a: ListAssembly,
    s: ListModel,
    stream: Seq<u8>,
    calls: nat,
)
    requires
        steady(f, stream),
        in_step(f, a.open, s, Seq::empty(), stream),
        !inside_value(f.parser.part),
        accepts(s, stream, calls),
    ensures
        ({
            let here = list_step(f.parser, buffer_of(f, stream));
            let there = list_step(s, stream);
            let next = act(f, stream, ListAction::Parse);
            let a1 = absorb(a, here.outcome);
            let owed1 = owed_outside(f, here, stream);
            if list_waits(here.outcome) {
                a1 == a && in_step(next, a.open, s, Seq::empty(), stream)
            } else if completes(here.outcome) {
                a1.done == a.done + items(whole(s, stream, calls))
            } else {
                &&& calls >= 2
                &&& accepts(there.next, stream, (calls - 1) as nat)
                &&& in_step(next, a1.open, there.next, owed1, stream)
                &&& a1.done + owed1 + items(whole(there.next, stream, (calls - 1) as nat))
                    == a.done + items(whole(s, stream, calls))
            }
        }),
{
    let p = f.parser;
    let buf = buffer_of(f, stream);
    let here = list_step(p, buf);
    let there = list_step(s, stream);
    let a1 = absorb(a, here.outcome);
    let owed1 = owed_outside(f, here, stream);
    lemma_step_window(p, at_offset(p, f.offset), stream, f.offset, f.received);
    lemma_list_step_moves_forward(p, buf);
    match here.outcome {
        Err(_) => {
            lemma_whole_len(s, stream, calls);
            assert(whole(s, stream, calls)[0] == there.outcome);
        },
        Ok(token) => {
            match token {
                ListToken::InsufficientData => {},
                ListToken::Complete => {
                    lemma_whole_complete(s, stream, calls);
                    assert(a1.done =~= a.done + seq![ListItem::Complete]);
                },
                ListToken::ListElementStart { value_part } => {
                    let missing = here.next.remaining;
                    if f.received + missing > stream.len() {
                        lemma_whole_never_opens(s, stream, calls);
                    }
                    let value = value_part + stream.subrange(f.received, f.received + missing);
                    lemma_whole_first(s, stream, calls, value);
                    let tail = items(whole(there.next, stream, (calls - 1) as nat));
                    assert(a1.done + owed1 + tail =~= a.done + (seq![ListItem::Element { value }]
                        + tail));
                },
                ListToken::ListElement { value } => {
                    lemma_whole_first(s, stream, calls, value);
                    let tail = items(whole(there.next, stream, (calls - 1) as nat));
                    assert(a1.done + owed1 + tail =~= a.done + (seq![ListItem::Element { value }]
                        + tail));
                    lemma_list_step_ignores_unparsed(
                        at_offset(here.next, f.offset),
                        there.next,
                        stream,
                    );
                },
                _ => {},
            }
        },
    }
}

/// The items that the parts give are the items that are owed and the items
/// of what the whole stream still holds.
pub proof fn lemma_parts_give_the_rest(
    f: ListFeed,
    a: ListAssembly,
    s: ListModel,
    owed: Seq<ListItem>,
    stream: Seq<u8>,
    calls: nat,
    actions: Seq<ListAction>,
)
    requires
        steady(f, stream),
        in_step(f, a.open, s, owed, stream),
        accepts(s, stream, calls),
        ends_complete(fed(f, stream, actions)),
    ensures
        assembled(a, fed(f, stream, actions)).done == a.done + owed + items(
            whole(s, stream, calls),
        ),
    decreases actions.len(),
{
    let next = act(f, stream, actions[0]);
    let rest = actions.skip(1);
    match actions[0] {
        ListAction::Relocate => {
            assert(at_offset(next.parser, next.offset) == at_offset(f.parser, f.offset));
            lemma_parts_give_the_rest(next, a, s, owed, stream, calls, rest);
        },
        ListAction::Receive(count) => {
            lemma_parts_give_the_rest(next, a, s, owed, stream, calls, rest);
        },
        ListAction::Parse => {
            let here = list_step(f.parser, buffer_of(f, stream));
            let a1 = absorb(a, here.outcome);
            lemma_fed_parse(f, stream, actions, a);
            lemma_list_step_moves_forward(f.parser, buffer_of(f, stream));
            if inside_value(f.parser.part) {
                let owed1 = owed_inside(here.outcome, owed);
                lemma_call_inside_value(f, a, s, owed, stream);
                lemma_parts_give_the_rest(next, a1, s, owed1, stream, calls, rest);
            } else {
                lemma_call_outside_value(f, a, s, stream, calls);
                assert(a.done + owed =~= a.done);
                if list_waits(here.outcome) {
                    lemma_parts_give_the_rest(next, a, s, owed, stream, calls, rest);
                } else if completes(here.outcome) {
                } else {
                    let there = list_step(s, stream);
                    let owed1 = owed_outside(f, here, stream);
                    lemma_parts_give_the_rest(
                        next,
                        a1,
                        there.next,
                        owed1,
                        stream,
                        (calls - 1) as nat,
                        rest,
                    );
                }
            }
        },
    }
}

/// A list that arrives in parts gives what it gives as a whole.
///
/// `stream` holds a list: a parser in state `st`, which does not stand
/// inside a value, returns its elements and with call number `calls` the
/// first `Complete` when it is given the whole stream. A second parser in
/// the same state is given the first `received` bytes of the stream, and its
/// caller then parses, receives and relocates as `actions` says, up to the
/// first `Complete`. Then the second parser has returned the elements that
/// the first returned, each with its parts put together.
pub proof fn law_list_parts_give_the_whole(
    st: ListModel,
    stream: Seq<u8>,
    calls: nat,
    received: int,
    actions: Seq<ListAction>,
)
    requires
        0 <= st.cursor <= received <= stream.len(),
        0 <= st.remaining,
        !inside_value(st.part),
        accepts(st, stream, calls),
        ends_complete(fed(ListFeed { parser: st, offset: 0, received }, stream, actions)),
    ensures
        items(fed(ListFeed { parser: st, offset: 0, received }, stream, actions)) == items(
            whole(st, stream, calls),
        ),
{
    let f = ListFeed { parser: st, offset: 0, received };
    let empty = ListAssembly { done: Seq::empty(), open: None };
    assert(at_offset(st, 0) == st);
    lemma_parts_give_the_rest(f, empty, st, Seq::empty(), stream, calls, actions);
    let tail = items(whole(st, stream, calls));
    assert(Seq::<ListItem>::empty() + Seq::<ListItem>::empty() + tail =~= tail);
}

} // verus!
