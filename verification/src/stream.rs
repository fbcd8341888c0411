//! A packet that arrives in parts gives the values that it gives as a whole.
//!
//! The caller of a parser receives bytes, lets the parser parse them, and
//! moves the unparsed bytes to the front of its buffer, in any order it
//! likes. Whatever the order, the values that the tokens carry, with the
//! parts of each value put together, are those that one parser returns when
//! it is given the whole packet at once.

use vstd::prelude::*;
use crate::laws::{aligned, lemma_step_inside_value, lemma_step_moves_forward};
use crate::packet::{
    after_rewind, body_line, body_step, entity_step, lemma_body_line_bounds,
    lemma_modifier_line_bounds, line_step, modifier_line, routing_step, step, Line, Model, Outcome,
    Part, Step,
};
use crate::scan::{holds_line_feed, lemma_line_feed_in_either, lemma_seek_window, Mark};
use crate::token::{PsycParserError, Token};
use crate::window::{lemma_body_line_window, lemma_modifier_line_window, lemma_subrange_window};

verus! {

/// What a run of tokens says, with the parts of each value put together.
pub enum Item {
    Sync,
    Reset,
    Complete,
    Routing { operator: char, name: Seq<u8>, value: Seq<u8> },
    Entity { operator: char, name: Seq<u8>, value: Seq<u8> },
    Body { name: Seq<u8>, value: Seq<u8> },
}

/// The items that a run of tokens has given so far, and the one whose value
/// is still arriving.
pub struct Assembly {
    pub done: Seq<Item>,
    pub open: Option<Item>,
}

/// `item` with `part` behind its value.
pub open spec fn extended(item: Item, part: Seq<u8>) -> Item {
    match item {
        Item::Entity { operator, name, value } => Item::Entity {
            operator,
            name,
            value: value + part,
        },
        Item::Body { name, value } => Item::Body { name, value: value + part },
        _ => item,
    }
}

/// The item that a token is by itself.
pub open spec fn whole_item(token: Token) -> Option<Item> {
    match token {
        Token::StateSync => Some(Item::Sync),
        Token::StateReset => Some(Item::Reset),
        Token::Complete => Some(Item::Complete),
        Token::RoutingModifier { operator, name, value } => Some(
            Item::Routing { operator, name, value },
        ),
        Token::EntityModifier { operator, name, value } => Some(
            Item::Entity { operator, name, value },
        ),
        Token::Body { name, value } => Some(Item::Body { name, value }),
        _ => None,
    }
}

/// The item that a token begins.
pub open spec fn opening(token: Token) -> Option<Item> {
    match token {
        Token::EntityModifierStart { operator, name, value_part } => Some(
            Item::Entity { operator, name, value: value_part },
        ),
        Token::BodyStart { name, value_part } => Some(Item::Body { name, value: value_part }),
        _ => None,
    }
}

/// The bytes with which a token goes on with a value.
pub open spec fn continuing(token: Token) -> Option<Seq<u8>> {
    match token {
        Token::EntityModifierCont { value_part } => Some(value_part),
        Token::BodyCont { value_part } => Some(value_part),
        _ => None,
    }
}

/// The bytes with which a token ends a value.
pub open spec fn closing(token: Token) -> Option<Seq<u8>> {
    match token {
        Token::EntityModifierEnd { value_part } => Some(value_part),
        Token::BodyEnd { value_part } => Some(value_part),
        _ => None,
    }
}

/// The assembly after one more reply of the parser.
pub open spec fn absorb(a: Assembly, outcome: Outcome) -> Assembly {
    match outcome {
        Err(_) => a,
        Ok(token) => {
            if whole_item(token) is Some {
                Assembly { done: a.done.push(whole_item(token)->Some_0), open: a.open }
            } else if opening(token) is Some {
                Assembly { done: a.done, open: opening(token) }
            } else if continuing(token) is Some && a.open is Some {
                Assembly {
                    done: a.done,
                    open: Some(extended(a.open->Some_0, continuing(token)->Some_0)),
                }
            } else if closing(token) is Some && a.open is Some {
                Assembly {
                    done: a.done.push(extended(a.open->Some_0, closing(token)->Some_0)),
                    open: None,
                }
            } else {
                a
            }
        },
    }
}

/// The assembly after a run of replies.
pub open spec fn assembled(a: Assembly, outcomes: Seq<Outcome>) -> Assembly
    decreases outcomes.len(),
{
    if outcomes.len() == 0 {
        a
    } else {
        assembled(absorb(a, outcomes[0]), outcomes.skip(1))
    }
}

/// The items that a run of replies gives.
pub open spec fn items(outcomes: Seq<Outcome>) -> Seq<Item> {
    assembled(Assembly { done: Seq::empty(), open: None }, outcomes).done
}

/// Whether `outcome` is the token `token`.
pub open spec fn is_token(outcome: Outcome, token: Token) -> bool {
    outcome == Ok::<Token, PsycParserError>(token)
}

/// Whether a run of replies ends with `Complete` and holds no other.
pub open spec fn ends_complete(outcomes: Seq<Outcome>) -> bool {
    &&& outcomes.len() > 0
    &&& is_token(outcomes.last(), Token::Complete)
    &&& forall|i: int| 0 <= i < outcomes.len() - 1 ==> !is_token(#[trigger] outcomes[i], Token::Complete)
}

/// The replies of a parser that is given the whole stream, call after call.
pub open spec fn whole(st: Model, stream: Seq<u8>, calls: nat) -> Seq<Outcome>
    decreases calls,
{
    if calls == 0 {
        Seq::empty()
    } else {
        seq![step(st, stream).outcome] + whole(
            step(st, stream).next,
            stream,
            (calls - 1) as nat,
        )
    }
}

/// Whether a parser in state `st` that is given the whole stream returns
/// tokens, never an error and never `InsufficientData`, and with call number
/// `calls` the first `Complete`: the stream holds a packet.
pub open spec fn accepts(st: Model, stream: Seq<u8>, calls: nat) -> bool {
    &&& ends_complete(whole(st, stream, calls))
    &&& forall|i: int|
        0 <= i < calls ==> (#[trigger] whole(st, stream, calls)[i]) is Ok && !is_token(
            whole(st, stream, calls)[i],
            Token::InsufficientData,
        )
}

/// What the caller of a parser does.
pub enum Action {
    /// It has the parser parse the buffer.
    Parse,
    /// It moves the unparsed bytes to the front of the buffer and tells the
    /// parser.
    Relocate,
    /// It appends this many bytes of the stream to the buffer.
    Receive(int),
}

/// A parser and its caller's buffer: the bytes of the stream from `offset`
/// up to `received`.
pub struct Feed {
    pub parser: Model,
    pub offset: int,
    pub received: int,
}

/// The bytes in the buffer.
pub open spec fn buffer_of(f: Feed, stream: Seq<u8>) -> Seq<u8> {
    stream.subrange(f.offset, f.received)
}

/// Parser and buffer after an action. Bytes that the stream does not hold
/// are not received.
pub open spec fn act(f: Feed, stream: Seq<u8>, action: Action) -> Feed {
    match action {
        Action::Parse => Feed { parser: step(f.parser, buffer_of(f, stream)).next, ..f },
        Action::Relocate => Feed {
            parser: after_rewind(f.parser),
            offset: f.offset + f.parser.cursor,
            ..f
        },
        Action::Receive(count) => if 0 <= count && f.received + count <= stream.len() {
            Feed { received: f.received + count, ..f }
        } else {
            f
        },
    }
}

/// The replies of the parser in the course of the actions.
pub open spec fn fed(f: Feed, stream: Seq<u8>, actions: Seq<Action>) -> Seq<Outcome>
    decreases actions.len(),
{
    if actions.len() == 0 {
        Seq::empty()
    } else {
        let rest = fed(act(f, stream, actions[0]), stream, actions.skip(1));
        if actions[0] is Parse {
            seq![step(f.parser, buffer_of(f, stream)).outcome] + rest
        } else {
            rest
        }
    }
}

/// The buffer is a part of the stream and the cursor is in the buffer.
pub open spec fn steady(f: Feed, stream: Seq<u8>) -> bool {
    0 <= f.offset && 0 <= f.parser.cursor && 0 <= f.parser.remaining && f.offset
        + f.parser.cursor <= f.received <= stream.len()
}

/// Whether a parser stands inside a value.
pub open spec fn inside_value(part: Part) -> bool {
    part == Part::EntityValue || part == Part::BodyValue
}

/// What the first part of a value on a window has to do with the call on
/// the whole stream: that call returns the whole value, which begins with
/// the part, or it returns a part too, where the stream ends inside the
/// value.
pub open spec fn starts(
    a: Step,
    b: Step,
    p: Model,
    lo: int,
    hi: int,
    stream: Seq<u8>,
    inside: Part,
    behind: Part,
    pending: bool,
) -> bool {
    let item = opening(a.outcome->Ok_0)->Some_0;
    let missing = a.next.remaining;
    &&& a.next.flags == p.flags
    &&& a.next.part == inside
    &&& a.next.cursor + lo == hi
    &&& missing > 0
    &&& b.next.flags == p.flags
    &&& b.outcome is Ok
    &&& if hi + missing <= stream.len() {
        &&& whole_item(b.outcome->Ok_0) == Some(
            extended(item, stream.subrange(hi, hi + missing)),
        )
        &&& b.next.part == behind
        &&& b.next.pending == pending
        &&& b.next.newline == (a.next.newline || (pending && holds_line_feed(
            stream.subrange(hi, hi + missing),
        )))
        &&& b.next.remaining == 0
        &&& b.next.cursor == hi + missing
    } else {
        &&& opening(b.outcome->Ok_0) is Some
        &&& b.next.part == inside
        &&& b.next.cursor == stream.len()
    }
}

/// What the call `a` on the window from `lo` up to `hi` has to do with the
/// call `b` on the whole stream, for a parser that does not stand inside a
/// value. A call that waits changes nothing; a call that begins a value is
/// described by `starts`; any other call returns the same and leaves the
/// same state on the window and on the stream.
pub open spec fn agrees(a: Step, b: Step, p: Model, lo: int, hi: int, stream: Seq<u8>) -> bool {
    match a.outcome {
        Err(_) => b.outcome == a.outcome,
        Ok(token) => match token {
            Token::InsufficientData => aligned(p, 0, a.next),
            Token::EntityModifierStart { .. } => starts(
                a,
                b,
                p,
                lo,
                hi,
                stream,
                Part::EntityValue,
                Part::EntityModifiers,
                true,
            ),
            Token::BodyStart { .. } => starts(
                a,
                b,
                p,
                lo,
                hi,
                stream,
                Part::BodyValue,
                Part::Terminator,
                false,
            ),
            Token::EntityModifierCont { .. } => false,
            Token::EntityModifierEnd { .. } => false,
            Token::BodyCont { .. } => false,
            Token::BodyEnd { .. } => false,
            _ => b.outcome == a.outcome && aligned(a.next, lo, b.next) && !inside_value(
                a.next.part,
            ),
        },
    }
}

/// A routing modifier on a window and on the stream.
pub proof fn lemma_routing_step_window(
    p: Model,
    s: Model,
    stream: Seq<u8>,
    lo: int,
    hi: int,
    at: int,
)
    requires
        0 <= lo,
        0 <= p.cursor <= at,
        lo + at < hi <= stream.len(),
        aligned(p, lo, s),
    ensures
        agrees(
            routing_step(p, stream.subrange(lo, hi), at),
            routing_step(s, stream, lo + at),
            p,
            lo,
            hi,
            stream,
        ),
{
    let w = stream.subrange(lo, hi);
    lemma_modifier_line_window(stream, lo, hi, at, p.flags.length);
    lemma_modifier_line_bounds(w, at, p.flags.length);
    match modifier_line(w, at, p.flags.length) {
        Line::Whole { name_end, value_start, value_end } => {
            lemma_subrange_window(stream, lo, hi, at + 1, name_end);
            lemma_subrange_window(stream, lo, hi, value_start, value_end);
        },
        _ => {},
    }
}

/// An entity modifier on a window and on the stream.
pub proof fn lemma_entity_step_window(
    p: Model,
    s: Model,
    stream: Seq<u8>,
    lo: int,
    hi: int,
    at: int,
)
    requires
        0 <= lo,
        0 <= p.cursor <= at,
        lo + at < hi <= stream.len(),
        aligned(p, lo, s),
    ensures
        agrees(
            entity_step(p, stream.subrange(lo, hi), at),
            entity_step(s, stream, lo + at),
            p,
            lo,
            hi,
            stream,
        ),
{
    let w = stream.subrange(lo, hi);
    lemma_modifier_line_window(stream, lo, hi, at, p.flags.length);
    lemma_modifier_line_bounds(w, at, p.flags.length);
    match modifier_line(w, at, p.flags.length) {
        Line::Whole { name_end, value_start, value_end } => {
            lemma_subrange_window(stream, lo, hi, at + 1, name_end);
            lemma_subrange_window(stream, lo, hi, value_start, value_end);
        },
        Line::Partial { name_end, value_start, missing } => {
            lemma_subrange_window(stream, lo, hi, at + 1, name_end);
            lemma_subrange_window(stream, lo, hi, value_start, hi - lo);
            if hi + missing <= stream.len() {
                assert(stream.subrange(lo + value_start, hi + missing) =~= stream.subrange(
                    lo + value_start,
                    hi,
                ) + stream.subrange(hi, hi + missing));
                lemma_line_feed_in_either(
                    stream.subrange(lo + value_start, hi),
                    stream.subrange(hi, hi + missing),
                );
            }
        },
        _ => {},
    }
}

/// A body on a window and on the stream.
pub proof fn lemma_body_step_window(p: Model, s: Model, stream: Seq<u8>, lo: int, hi: int, at: int)
    requires
        0 <= lo,
        0 <= p.cursor <= at,
        lo + at < hi <= stream.len(),
        aligned(p, lo, s),
    ensures
        agrees(
            body_step(p, stream.subrange(lo, hi), at),
            body_step(s, stream, lo + at),
            p,
            lo,
            hi,
            stream,
        ),
{
    let w = stream.subrange(lo, hi);
    lemma_body_line_window(stream, lo, hi, at, p.flags.length);
    lemma_body_line_bounds(w, at, p.flags.length);
    match body_line(w, at, p.flags.length) {
        Line::Whole { name_end, value_start, value_end } => {
            lemma_subrange_window(stream, lo, hi, at, name_end);
            lemma_subrange_window(stream, lo, hi, value_start, value_end);
        },
        Line::Partial { name_end, value_start, missing } => {
            lemma_subrange_window(stream, lo, hi, at, name_end);
            lemma_subrange_window(stream, lo, hi, value_start, hi - lo);
            if hi + missing <= stream.len() {
                assert(stream.subrange(lo + value_start, hi + missing) =~= stream.subrange(
                    lo + value_start,
                    hi,
                ) + stream.subrange(hi, hi + missing));
            }
        },
        _ => {},
    }
}

/// A call at a line on a window and on the stream.
pub proof fn lemma_line_step_window(p: Model, s: Model, stream: Seq<u8>, lo: int, hi: int)
    requires
        0 <= lo,
        0 <= p.cursor,
        lo + p.cursor <= hi <= stream.len(),
        aligned(p, lo, s),
    ensures
        agrees(line_step(p, stream.subrange(lo, hi)), line_step(s, stream), p, lo, hi, stream),
{
    let w = stream.subrange(lo, hi);
    let at = if p.pending {
        p.cursor + 1
    } else {
        p.cursor
    };
    if at < w.len() {
        lemma_routing_step_window(p, s, stream, lo, hi, at);
        lemma_entity_step_window(p, s, stream, lo, hi, at);
        lemma_body_step_window(p, s, stream, lo, hi, at);
    }
}

/// A call on a window of the stream and the same call on the whole stream,
/// for a parser that does not stand inside a value.
pub proof fn lemma_step_window(p: Model, s: Model, stream: Seq<u8>, lo: int, hi: int)
    requires
        0 <= lo,
        0 <= p.cursor,
        lo + p.cursor <= hi <= stream.len(),
        aligned(p, lo, s),
        !inside_value(p.part),
    ensures
        agrees(step(p, stream.subrange(lo, hi)), step(s, stream), p, lo, hi, stream),
{
    reveal(step);
    match p.part {
        Part::Modifiers => {
            lemma_line_step_window(p, s, stream, lo, hi);
        },
        Part::EntityModifiers => {
            lemma_line_step_window(p, s, stream, lo, hi);
        },
        Part::Resync => {
            lemma_seek_window(stream, lo, hi, p.cursor, Mark::Terminator);
        },
        _ => {},
    }
}

/// The items that are done stay in front of what a run of replies adds.
pub proof fn lemma_assembled_prefix(a: Assembly, outcomes: Seq<Outcome>)
    ensures
        assembled(a, outcomes).done == a.done + assembled(
            Assembly { done: Seq::empty(), open: a.open },
            outcomes,
        ).done,
    decreases outcomes.len(),
{
    let e = Assembly { done: Seq::empty(), open: a.open };
    if outcomes.len() == 0 {
        assert(a.done =~= a.done + e.done);
    } else {
        let a1 = absorb(a, outcomes[0]);
        let e1 = absorb(e, outcomes[0]);
        assert(a1.open == e1.open);
        assert(a1.done =~= a.done + e1.done);
        lemma_assembled_prefix(a1, outcomes.skip(1));
        lemma_assembled_prefix(e1, outcomes.skip(1));
        let tail = assembled(Assembly { done: Seq::empty(), open: a1.open }, outcomes.skip(1)).done;
        assert((a.done + e1.done) + tail =~= a.done + (e1.done + tail));
    }
}

/// There is one reply for each call.
pub proof fn lemma_whole_len(st: Model, stream: Seq<u8>, calls: nat)
    ensures
        whole(st, stream, calls).len() == calls,
    decreases calls,
{
    if calls > 0 {
        lemma_whole_len(step(st, stream).next, stream, (calls - 1) as nat);
    }
}

/// Behind the first token of a packet, where that is not `Complete`, the
/// parser accepts the rest of the packet, and the items of the packet are
/// the item of that token and the items of the rest.
pub proof fn lemma_whole_first(st: Model, stream: Seq<u8>, calls: nat, item: Item)
    requires
        accepts(st, stream, calls),
        step(st, stream).outcome is Ok,
        whole_item(step(st, stream).outcome->Ok_0) == Some(item),
        item != Item::Complete,
    ensures
        calls >= 2,
        accepts(step(st, stream).next, stream, (calls - 1) as nat),
        items(whole(st, stream, calls)) == seq![item] + items(
            whole(step(st, stream).next, stream, (calls - 1) as nat),
        ),
{
    let w = whole(st, stream, calls);
    let next = step(st, stream).next;
    lemma_whole_len(st, stream, calls);
    assert(w[0] == step(st, stream).outcome);
    assert(calls >= 2) by {
        if calls == 1 {
            assert(w.last() == w[0]);
        }
    }
    let rest = whole(next, stream, (calls - 1) as nat);
    lemma_whole_len(next, stream, (calls - 1) as nat);
    assert(w.skip(1) =~= rest);
    assert forall|i: int| 0 <= i < rest.len() implies rest[i] == w[i + 1] by {}
    assert(rest.last() == w.last());
    assert forall|i: int| 0 <= i < rest.len() - 1 implies !is_token(
        #[trigger] rest[i],
        Token::Complete,
    ) by {
        assert(rest[i] == w[i + 1]);
    }
    assert forall|i: int| 0 <= i < calls - 1 implies (#[trigger] rest[i]) is Ok && !is_token(
        rest[i],
        Token::InsufficientData,
    ) by {
        assert(rest[i] == w[i + 1]);
    }
    let empty = Assembly { done: Seq::empty(), open: None };
    lemma_assembled_prefix(absorb(empty, w[0]), rest);
    assert(absorb(empty, w[0]).done =~= seq![item]);
}

/// A packet whose first token is `Complete` has this one item.
pub proof fn lemma_whole_complete(st: Model, stream: Seq<u8>, calls: nat)
    requires
        accepts(st, stream, calls),
        is_token(step(st, stream).outcome, Token::Complete),
    ensures
        items(whole(st, stream, calls)) == seq![Item::Complete],
{
    let w = whole(st, stream, calls);
    lemma_whole_len(st, stream, calls);
    assert(w[0] == step(st, stream).outcome);
    assert(calls == 1);
    assert(w.skip(1) =~= Seq::<Outcome>::empty());
    let empty = Assembly { done: Seq::empty(), open: None };
    assert(absorb(empty, w[0]).done =~= seq![Item::Complete]);
    assert(assembled(absorb(empty, w[0]), w.skip(1)) == absorb(empty, w[0]));
}

/// A parser that is given a whole packet never begins a value that the
/// stream does not hold.
pub proof fn lemma_whole_never_opens(st: Model, stream: Seq<u8>, calls: nat)
    requires
        accepts(st, stream, calls),
        step(st, stream).outcome is Ok,
        opening(step(st, stream).outcome->Ok_0) is Some,
        inside_value(step(st, stream).next.part),
    ensures
        step(st, stream).next.cursor != stream.len(),
{
    let w = whole(st, stream, calls);
    let next = step(st, stream).next;
    lemma_whole_len(st, stream, calls);
    assert(w[0] == step(st, stream).outcome);
    if calls == 1 {
        assert(w.last() == w[0]);
    } else if next.cursor == stream.len() {
        let rest = whole(next, stream, (calls - 1) as nat);
        lemma_whole_len(next, stream, (calls - 1) as nat);
        assert(w[1] == rest[0]);
        assert(rest[0] == step(next, stream).outcome);
        lemma_step_inside_value(next, stream);
        assert(is_token(step(next, stream).outcome, Token::InsufficientData));
    }
}

/// The replies of the actions after the first.
pub open spec fn later(f: Feed, stream: Seq<u8>, actions: Seq<Action>) -> Seq<Outcome> {
    fed(act(f, stream, actions[0]), stream, actions.skip(1))
}

/// What the first action, a call of the parser, adds to the replies.
pub proof fn lemma_fed_parse(f: Feed, stream: Seq<u8>, actions: Seq<Action>, a: Assembly)
    requires
        actions.len() > 0,
        actions[0] is Parse,
        ends_complete(fed(f, stream, actions)),
    ensures
        assembled(a, fed(f, stream, actions)) == assembled(
            absorb(a, step(f.parser, buffer_of(f, stream)).outcome),
            later(f, stream, actions),
        ),
        if is_token(step(f.parser, buffer_of(f, stream)).outcome, Token::Complete) {
            later(f, stream, actions).len() == 0
        } else {
            ends_complete(later(f, stream, actions))
        },
{
    let all = fed(f, stream, actions);
    let rest = later(f, stream, actions);
    let first = step(f.parser, buffer_of(f, stream)).outcome;
    assert(all == seq![first] + rest);
    assert(all[0] == first);
    assert(all.skip(1) =~= rest);
    if is_token(first, Token::Complete) {
        if rest.len() > 0 {
            assert(is_token(all[0], Token::Complete));
        }
    } else {
        assert(rest.len() > 0) by {
            if rest.len() == 0 {
                assert(all.last() == all[0]);
            }
        }
        assert(rest.last() == all.last());
        assert forall|i: int| 0 <= i < rest.len() - 1 implies !is_token(
            #[trigger] rest[i],
            Token::Complete,
        ) by {
            assert(rest[i] == all[i + 1]);
        }
    }
}

/// How a parser that is fed in parts stands to the parser that was given the
/// whole stream. Outside a value the two are in the same state. Inside a
/// value the second has returned the whole value and is behind it; the first
/// has returned the bytes up to its cursor, and `owed` holds what the parts
/// will have given when the value ends.
pub open spec fn in_step(
    f: Feed,
    open: Option<Item>,
    s: Model,
    owed: Seq<Item>,
    stream: Seq<u8>,
) -> bool {
    let p = f.parser;
    let at = f.offset + p.cursor;
    if inside_value(p.part) {
        &&& open is Some
        &&& p.remaining > 0
        &&& at + p.remaining <= stream.len()
        &&& owed == seq![extended(open->Some_0, stream.subrange(at, at + p.remaining))]
        &&& s.flags == p.flags
        &&& s.newline == (p.newline || (p.part == Part::EntityValue && holds_line_feed(
            stream.subrange(at, at + p.remaining),
        )))
        &&& s.remaining == 0
        &&& s.cursor == at + p.remaining
        &&& s.part == (if p.part == Part::EntityValue {
            Part::EntityModifiers
        } else {
            Part::Terminator
        })
        &&& s.pending == (p.part == Part::EntityValue)
    } else {
        open is None && owed == Seq::<Item>::empty() && aligned(p, f.offset, s)
    }
}

/// What is owed after a call inside a value: nothing more once the value
/// has ended.
pub open spec fn owed_inside(outcome: Outcome, owed: Seq<Item>) -> Seq<Item> {
    if outcome is Ok && closing(outcome->Ok_0) is Some {
        Seq::empty()
    } else {
        owed
    }
}

/// A call inside a value keeps the two parsers in step.
pub proof fn lemma_call_inside_value(
    f: Feed,
    a: Assembly,
    s: Model,
    owed: Seq<Item>,
    stream: Seq<u8>,
)
    requires
        steady(f, stream),
        in_step(f, a.open, s, owed, stream),
        inside_value(f.parser.part),
    ensures
        ({
            let here = step(f.parser, buffer_of(f, stream));
            let a1 = absorb(a, here.outcome);
            let owed1 = owed_inside(here.outcome, owed);
            &&& !is_token(here.outcome, Token::Complete)
            &&& in_step(act(f, stream, Action::Parse), a1.open, s, owed1, stream)
            &&& a1.done + owed1 == a.done + owed
        }),
{
    let p = f.parser;
    let buf = buffer_of(f, stream);
    let here = step(p, buf);
    let a1 = absorb(a, here.outcome);
    let owed1 = owed_inside(here.outcome, owed);
    let at = f.offset + p.cursor;
    let at_hand = f.received - at;
    lemma_step_inside_value(p, buf);
    if at_hand == 0 {
        assert(a1.done + owed1 =~= a.done + owed);
    } else if at_hand < p.remaining {
        assert(buf.subrange(p.cursor, buf.len() as int) =~= stream.subrange(at, f.received));
        assert(stream.subrange(at, at + p.remaining) =~= stream.subrange(at, f.received)
            + stream.subrange(f.received, at + p.remaining));
        lemma_line_feed_in_either(
            stream.subrange(at, f.received),
            stream.subrange(f.received, at + p.remaining),
        );
        lemma_extended_twice(
            a.open->Some_0,
            stream.subrange(at, f.received),
            stream.subrange(f.received, at + p.remaining),
        );
        assert(a1.done + owed1 =~= a.done + owed);
    } else {
        assert(buf.subrange(p.cursor, p.cursor + p.remaining) =~= stream.subrange(
            at,
            at + p.remaining,
        ));
        assert(a1.done + owed1 =~= a.done + owed);
    }
}

/// What is owed after a call outside a value: the whole value, where the
/// call returned its first part.
pub open spec fn owed_outside(f: Feed, here: Step, stream: Seq<u8>) -> Seq<Item> {
    if here.outcome is Ok && opening(here.outcome->Ok_0) is Some {
        seq![
            extended(
                opening(here.outcome->Ok_0)->Some_0,
                stream.subrange(f.received, f.received + here.next.remaining),
            ),
        ]
    } else {
        Seq::empty()
    }
}

/// A call outside a value keeps the two parsers in step: where the parser
/// that is fed in parts waits, the other does nothing; where it returns
/// `Complete`, so does the other; where it returns another token, the other
/// returns that token, or the whole of the value that the token begins.
pub proof fn lemma_call_outside_value(f: Feed, a: Assembly, s: Model, stream: Seq<u8>, calls: nat)
    requires
        steady(f, stream),
        in_step(f, a.open, s, Seq::empty(), stream),
        !inside_value(f.parser.part),
        accepts(s, stream, calls),
    ensures
        ({
            let here = step(f.parser, buffer_of(f, stream));
            let there = step(s, stream);
            let next = act(f, stream, Action::Parse);
            let a1 = absorb(a, here.outcome);
            let owed1 = owed_outside(f, here, stream);
            if is_token(here.outcome, Token::InsufficientData) {
                a1 == a && in_step(next, a.open, s, Seq::empty(), stream)
            } else if is_token(here.outcome, Token::Complete) {
                a1.done == a.done + items(whole(s, stream, calls))
            } else {
                &&& calls >= 2
                &&& accepts(there.next, stream, (calls - 1) as nat)
                &&& in_step(next, a1.open, there.next, owed1, stream)
                &&& a1.done + owed1 + items(whole(there.next, stream, (calls - 1) as nat))
                    == a.done + items(whole(s, stream, calls))
            }
        }),
{
    let p = f.parser;
    let buf = buffer_of(f, stream);
    let here = step(p, buf);
    let there = step(s, stream);
    let a1 = absorb(a, here.outcome);
    let owed1 = owed_outside(f, here, stream);
    lemma_step_window(p, s, stream, f.offset, f.received);
    lemma_step_moves_forward(p, buf);
    match here.outcome {
        Err(_) => {
            lemma_whole_len(s, stream, calls);
            assert(whole(s, stream, calls)[0] == there.outcome);
        },
        Ok(token) => {
            if token == Token::InsufficientData {
            } else if token == Token::Complete {
                lemma_whole_complete(s, stream, calls);
                assert(a1.done =~= a.done + seq![Item::Complete]);
            } else if opening(token) is Some {
                let missing = here.next.remaining;
                if f.received + missing > stream.len() {
                    lemma_whole_never_opens(s, stream, calls);
                }
                let item = extended(
                    opening(token)->Some_0,
                    stream.subrange(f.received, f.received + missing),
                );
                lemma_whole_first(s, stream, calls, item);
                let tail = items(whole(there.next, stream, (calls - 1) as nat));
                assert(a1.done + owed1 + tail =~= a.done + (seq![item] + tail));
            } else {
                let item = whole_item(token)->Some_0;
                lemma_whole_first(s, stream, calls, item);
                let tail = items(whole(there.next, stream, (calls - 1) as nat));
                assert(a1.done + owed1 + tail =~= a.done + (seq![item] + tail));
            }
        },
    }
}

/// The items that the parts give are the items that are owed and the items
/// of what the whole stream still holds.
pub proof fn lemma_parts_give_the_rest(
    f: Feed,
    a: Assembly,
    s: Model,
    owed: Seq<Item>,
    stream: Seq<u8>,
    calls: nat,
    actions: Seq<Action>,
)
    requires
        steady(f, stream),
        in_step(f, a.open, s, owed, stream),
        accepts(s, stream, calls),
        ends_complete(fed(f, stream, actions)),
    ensures
        assembled(a, fed(f, stream, actions)).done == a.done + owed + items(
            whole(s, stream, calls),
        ),
    decreases actions.len(),
{
    let next = act(f, stream, actions[0]);
    let rest = actions.skip(1);
    let tail = items(whole(s, stream, calls));
    match actions[0] {
        Action::Relocate => {
            lemma_parts_give_the_rest(next, a, s, owed, stream, calls, rest);
        },
        Action::Receive(count) => {
            lemma_parts_give_the_rest(next, a, s, owed, stream, calls, rest);
        },
        Action::Parse => {
            let here = step(f.parser, buffer_of(f, stream));
            let a1 = absorb(a, here.outcome);
            lemma_fed_parse(f, stream, actions, a);
            lemma_step_moves_forward(f.parser, buffer_of(f, stream));
            if inside_value(f.parser.part) {
                let owed1 = owed_inside(here.outcome, owed);
                lemma_call_inside_value(f, a, s, owed, stream);
                lemma_parts_give_the_rest(next, a1, s, owed1, stream, calls, rest);
            } else {
                lemma_call_outside_value(f, a, s, stream, calls);
                assert(a.done + owed =~= a.done);
                if is_token(here.outcome, Token::InsufficientData) {
                    lemma_parts_give_the_rest(next, a, s, owed, stream, calls, rest);
                } else if is_token(here.outcome, Token::Complete) {
                } else {
                    let there = step(s, stream);
                    let owed1 = owed_outside(f, here, stream);
                    lemma_parts_give_the_rest(
                        next,
                        a1,
                        there.next,
                        owed1,
                        stream,
                        (calls - 1) as nat,
                        rest,
                    );
                }
            }
        },
    }
}

/// Two parts behind a value are their concatenation behind it.
pub proof fn lemma_extended_twice(item: Item, first: Seq<u8>, second: Seq<u8>)
    ensures
        extended(extended(item, first), second) == extended(item, first + second),
{
    match item {
        Item::Entity { operator, name, value } => {
            assert((value + first) + second =~= value + (first + second));
        },
        Item::Body { name, value } => {
            assert((value + first) + second =~= value + (first + second));
        },
        _ => {},
    }
}

/// A packet that arrives in parts gives what it gives as a whole.
///
/// `stream` holds a packet: a parser in state `st`, which does not stand
/// inside a value, returns its tokens and with call number `calls` the first
/// `Complete` when it is given the whole stream. A second parser in the same
/// state is given the first `received` bytes of the stream, and its caller
/// then parses, receives and relocates as `actions` says, up to the first
/// `Complete`. Then the second parser has returned the items that the first
/// returned: the same names and operators, and values whose parts, put
/// together, are the values of the first.
pub proof fn law_parts_give_the_whole(
    st: Model,
    stream: Seq<u8>,
    calls: nat,
    received: int,
    actions: Seq<Action>,
)
    requires
        0 <= st.cursor <= received <= stream.len(),
        0 <= st.remaining,
        !inside_value(st.part),
        accepts(st, stream, calls),
        ends_complete(fed(Feed { parser: st, offset: 0, received }, stream, actions)),
    ensures
        items(fed(Feed { parser: st, offset: 0, received }, stream, actions)) == items(
            whole(st, stream, calls),
        ),
{
    let f = Feed { parser: st, offset: 0, received };
    let empty = Assembly { done: Seq::empty(), open: None };
    lemma_parts_give_the_rest(f, empty, st, Seq::empty(), stream, calls, actions);
    let tail = items(whole(st, stream, calls));
    assert(Seq::<Item>::empty() + Seq::<Item>::empty() + tail =~= tail);
}

} // verus!
