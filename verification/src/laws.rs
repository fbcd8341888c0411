//! What holds of every run of a packet parser.

use vstd::prelude::*;
use crate::packet::{
    after_rewind, body_step, entity_step, lemma_body_line_bounds, lemma_modifier_line_bounds,
    line_step, resync_step, routing_step, step, terminator_step, value_step, wait, Model, Outcome,
    Part,
};
use crate::scan::{lemma_seek_bounds, Mark};
use crate::token::Token;

verus! {

/// Two states that differ at most in the count of unparsed bytes, the second
/// with its cursor `shift` bytes further on.
pub open spec fn aligned(st: Model, shift: int, other: Model) -> bool {
    &&& other.flags == st.flags
    &&& other.part == st.part
    &&& other.pending == st.pending
    &&& other.newline == st.newline
    &&& other.remaining == st.remaining
    &&& other.cursor == st.cursor + shift
}

/// What a caller does with a parser in one turn: it may first tell the parser
/// that the buffer begins anew, and then has it parse a buffer.
pub struct Call {
    pub rewind: bool,
    pub buf: Seq<u8>,
}

/// One turn of a caller.
pub open spec fn turn(st: Model, call: Call) -> crate::packet::Step {
    step(
        if call.rewind {
            after_rewind(st)
        } else {
            st
        },
        call.buf,
    )
}

/// What the parser returns, turn by turn.
pub open spec fn replies(st: Model, calls: Seq<Call>) -> Seq<Outcome>
    decreases calls.len(),
{
    if calls.len() == 0 {
        Seq::empty()
    } else {
        seq![turn(st, calls[0]).outcome] + replies(turn(st, calls[0]).next, calls.skip(1))
    }
}

/// The state in which the turns leave the parser.
pub open spec fn state_after(st: Model, calls: Seq<Call>) -> Model
    decreases calls.len(),
{
    if calls.len() == 0 {
        st
    } else {
        state_after(turn(st, calls[0]).next, calls.skip(1))
    }
}

/// Where a token stands in the order of a packet: routing modifiers, entity
/// modifiers, body, end. Other tokens have no place in it.
pub open spec fn rank(token: Token) -> Option<int> {
    match token {
        Token::RoutingModifier { .. } => Some(0),
        Token::EntityModifier { .. } => Some(1),
        Token::EntityModifierStart { .. } => Some(1),
        Token::EntityModifierCont { .. } => Some(1),
        Token::EntityModifierEnd { .. } => Some(1),
        Token::Body { .. } => Some(2),
        Token::BodyStart { .. } => Some(2),
        Token::BodyCont { .. } => Some(2),
        Token::BodyEnd { .. } => Some(2),
        Token::Complete => Some(3),
        _ => None,
    }
}

/// The least rank of a token that a parser in this part of a packet can
/// still return.
pub open spec fn floor(part: Part) -> int {
    match part {
        Part::Reset => 0,
        Part::Resync => 0,
        Part::Modifiers => 0,
        Part::EntityModifiers => 1,
        Part::EntityValue => 1,
        Part::BodyValue => 2,
        Part::Terminator => 3,
        Part::Complete => 3,
        Part::Failed(_) => 4,
    }
}

/// Whether `outcome` is a token of the body.
pub open spec fn is_body_token(outcome: Outcome) -> bool {
    outcome is Ok && rank(outcome->Ok_0) == Some(2int)
}

/// Whether `outcome` is a token of a routing or an entity modifier.
pub open spec fn is_modifier_token(outcome: Outcome) -> bool {
    outcome is Ok && (rank(outcome->Ok_0) == Some(0int) || rank(outcome->Ok_0) == Some(1int))
}

/// A call that returns `InsufficientData` leaves the parser where it was,
/// and the same call on the same bytes returns `InsufficientData` again.
pub proof fn law_insufficient_data_repeats(st: Model, buf: Seq<u8>)
    requires
        step(st, buf).outcome == Ok::<Token, crate::token::PsycParserError>(
            Token::InsufficientData,
        ),
    ensures
        aligned(st, 0, step(st, buf).next),
        step(step(st, buf).next, buf) == step(st, buf),
{
    reveal(step);
    if 0 <= st.cursor <= buf.len() {
        let next = step(st, buf).next;
        lemma_insufficient_data_waits(st, buf);
        lemma_step_ignores_unparsed(st, next, buf);
        lemma_insufficient_data_waits(next, buf);
    }
}

/// A call that returns `InsufficientData` changes nothing but the count of
/// unparsed bytes.
pub proof fn lemma_insufficient_data_waits(st: Model, buf: Seq<u8>)
    requires
        0 <= st.cursor <= buf.len(),
        step(st, buf).outcome == Ok::<Token, crate::token::PsycParserError>(
            Token::InsufficientData,
        ),
    ensures
        step(st, buf) == wait(st, buf),
{
    reveal(step);
}

/// What a call at a line returns does not depend on the count of unparsed
/// bytes that the parser recorded.
pub proof fn lemma_line_step_ignores_unparsed(a: Model, b: Model, buf: Seq<u8>)
    requires
        aligned(a, 0, b),
    ensures
        line_step(a, buf) == line_step(b, buf),
{
    let at = if a.pending {
        a.cursor + 1
    } else {
        a.cursor
    };
    assert(routing_step(a, buf, at) == routing_step(b, buf, at));
    assert(entity_step(a, buf, at) == entity_step(b, buf, at));
    assert(body_step(a, buf, at) == body_step(b, buf, at));
}

/// What a call returns does not depend on the count of unparsed bytes that
/// the parser recorded.
pub proof fn lemma_step_ignores_unparsed(a: Model, b: Model, buf: Seq<u8>)
    requires
        aligned(a, 0, b),
    ensures
        step(a, buf).outcome == step(b, buf).outcome,
        aligned(step(a, buf).next, 0, step(b, buf).next),
        0 <= a.cursor <= buf.len() ==> step(a, buf) == step(b, buf),
{
    reveal(step);
    lemma_line_step_ignores_unparsed(a, b, buf);
    assert(value_step(a, buf, false) == value_step(b, buf, false));
    assert(value_step(a, buf, true) == value_step(b, buf, true));
    assert(terminator_step(a, buf) == terminator_step(b, buf));
    assert(resync_step(a, buf) == resync_step(b, buf));
}

/// Two parsers in the same state that are given the same bytes, turn by
/// turn, return the same tokens.
pub proof fn law_same_bytes_same_tokens(a: Model, b: Model, calls: Seq<Call>)
    requires
        aligned(a, 0, b),
    ensures
        replies(a, calls) == replies(b, calls),
        aligned(state_after(a, calls), 0, state_after(b, calls)),
    decreases calls.len(),
{
    if calls.len() > 0 {
        let a0 = if calls[0].rewind {
            after_rewind(a)
        } else {
            a
        };
        let b0 = if calls[0].rewind {
            after_rewind(b)
        } else {
            b
        };
        lemma_step_ignores_unparsed(a0, b0, calls[0].buf);
        law_same_bytes_same_tokens(turn(a, calls[0]).next, turn(b, calls[0]).next, calls.skip(1));
    }
}

/// A call returns no token that stands before the part of the packet that
/// the parser has reached, and leaves the parser no further back than the
/// token stands.
pub proof fn lemma_step_keeps_order(st: Model, buf: Seq<u8>)
    ensures
        floor(st.part) <= floor(step(st, buf).next.part),
        match step(st, buf).outcome {
            Ok(token) => match rank(token) {
                Some(r) => floor(st.part) <= r <= floor(step(st, buf).next.part),
                None => true,
            },
            Err(_) => true,
        },
{
    reveal(step);
}

/// Tokens come in the order of the grammar: of two tokens of one run that
/// have a place in that order, the later one does not stand before the
/// earlier one.
pub proof fn law_tokens_in_order(st: Model, calls: Seq<Call>, i: int, j: int)
    requires
        0 <= i <= j < calls.len(),
        replies(st, calls)[i] is Ok,
        replies(st, calls)[j] is Ok,
        rank(replies(st, calls)[i]->Ok_0) is Some,
        rank(replies(st, calls)[j]->Ok_0) is Some,
    ensures
        rank(replies(st, calls)[i]->Ok_0)->Some_0 <= rank(replies(st, calls)[j]->Ok_0)->Some_0,
    decreases calls.len(),
{
    let first = turn(st, calls[0]);
    let st0 = if calls[0].rewind {
        after_rewind(st)
    } else {
        st
    };
    lemma_step_keeps_order(st0, calls[0].buf);
    let rest = replies(first.next, calls.skip(1));
    lemma_replies_len(first.next, calls.skip(1));
    if i == 0 {
        if j > 0 {
            assert(replies(st, calls)[j] == rest[j - 1]);
            lemma_reply_above_floor(first.next, calls.skip(1), j - 1);
        }
    } else {
        assert(replies(st, calls)[i] == rest[i - 1]);
        assert(replies(st, calls)[j] == rest[j - 1]);
        law_tokens_in_order(first.next, calls.skip(1), i - 1, j - 1);
    }
}

/// A body token is never followed by a token of a modifier.
pub proof fn law_body_after_modifiers(st: Model, calls: Seq<Call>, i: int, j: int)
    requires
        0 <= i < j < calls.len(),
        is_body_token(replies(st, calls)[i]),
    ensures
        !is_modifier_token(replies(st, calls)[j]),
{
    if is_modifier_token(replies(st, calls)[j]) {
        law_tokens_in_order(st, calls, i, j);
    }
}

/// There is one reply for each turn.
pub proof fn lemma_replies_len(st: Model, calls: Seq<Call>)
    ensures
        replies(st, calls).len() == calls.len(),
    decreases calls.len(),
{
    if calls.len() > 0 {
        lemma_replies_len(turn(st, calls[0]).next, calls.skip(1));
    }
}

/// No token of a run stands before the part of the packet at which the run
/// began.
pub proof fn lemma_reply_above_floor(st: Model, calls: Seq<Call>, j: int)
    requires
        0 <= j < calls.len(),
        replies(st, calls)[j] is Ok,
        rank(replies(st, calls)[j]->Ok_0) is Some,
    ensures
        floor(st.part) <= rank(replies(st, calls)[j]->Ok_0)->Some_0,
    decreases calls.len(),
{
    let first = turn(st, calls[0]);
    let st0 = if calls[0].rewind {
        after_rewind(st)
    } else {
        st
    };
    lemma_step_keeps_order(st0, calls[0].buf);
    lemma_replies_len(first.next, calls.skip(1));
    if j > 0 {
        assert(replies(st, calls)[j] == replies(first.next, calls.skip(1))[j - 1]);
        lemma_reply_above_floor(first.next, calls.skip(1), j - 1);
    }
}

/// A call inside a value is a call of `value_step`.
pub proof fn lemma_step_inside_value(st: Model, buf: Seq<u8>)
    requires
        0 <= st.cursor <= buf.len(),
    ensures
        st.part == Part::EntityValue ==> step(st, buf) == value_step(st, buf, false),
        st.part == Part::BodyValue ==> step(st, buf) == value_step(st, buf, true),
{
    reveal(step);
}

/// A call on a buffer that holds the cursor never moves the cursor back,
/// leaves it in the buffer, and counts as unparsed what lies behind it.
pub proof fn lemma_step_moves_forward(st: Model, buf: Seq<u8>)
    requires
        0 <= st.cursor <= buf.len(),
        0 <= st.remaining,
    ensures
        st.cursor <= step(st, buf).next.cursor <= buf.len(),
        step(st, buf).next.cursor + step(st, buf).next.unparsed == buf.len(),
        0 <= step(st, buf).next.remaining,
{
    reveal(step);
    let at = if st.pending {
        st.cursor + 1
    } else {
        st.cursor
    };
    if at < buf.len() {
        lemma_modifier_line_bounds(buf, at, st.flags.length);
        lemma_body_line_bounds(buf, at, st.flags.length);
    }
    lemma_seek_bounds(buf, st.cursor, Mark::Terminator);
}

} // verus!
