//! What a call of a parser hands back: tokens whose slices borrow from the
//! caller's buffer, the errors, and the values that stand for both in
//! contracts.

use vstd::prelude::*;

verus! {

/// One token of a packet. The slices point into the buffer that was parsed.
#[derive(Debug, PartialEq)]
pub enum PsycParserResult<'a> {
    /// The parser skipped input up to the end of the next terminator line
    /// and awaits a new packet.
    StateSync,
    /// The parser was reset and awaits a new packet.
    StateReset,
    /// The packet is complete.
    Complete,
    /// The bytes at hand do not decide the next token.
    InsufficientData,
    /// A whole routing modifier.
    RoutingModifier { operator: char, name: &'a [u8], value: &'a [u8] },
    /// A whole entity modifier.
    EntityModifier { operator: char, name: &'a [u8], value: &'a [u8] },
    /// An entity modifier with the first part of its value.
    EntityModifierStart { operator: char, name: &'a [u8], value_part: &'a [u8] },
    /// A further part of the value of an entity modifier.
    EntityModifierCont { value_part: &'a [u8] },
    /// The last part of the value of an entity modifier.
    EntityModifierEnd { value_part: &'a [u8] },
    /// A whole body.
    Body { name: &'a [u8], value: &'a [u8] },
    /// A body with the first part of its value.
    BodyStart { name: &'a [u8], value_part: &'a [u8] },
    /// A further part of the value of a body.
    BodyCont { value_part: &'a [u8] },
    /// The last part of the value of a body.
    BodyEnd { value_part: &'a [u8] },
}

/// One token of a list. The slices point into the buffer that was parsed.
#[derive(Debug, PartialEq)]
pub enum PsycListParserResult<'a> {
    /// The list is complete.
    Complete,
    /// The bytes at hand do not decide the next token.
    InsufficientData,
    /// A whole element.
    ListElement { value: &'a [u8] },
    /// The first part of an element.
    ListElementStart { value_part: &'a [u8] },
    /// A further part of an element.
    ListElementCont { value_part: &'a [u8] },
    /// The last part of an element.
    ListElementEnd { value_part: &'a [u8] },
}

/// Why a packet was rejected.
#[derive(Clone, Copy, Debug, PartialEq, Eq)]
pub enum PsycParserError {
    /// A space after a modifier's name announces a length, and no digit
    /// follows.
    NoModifierLength,
    /// A space after the body's name announces a length, and no usable
    /// number follows.
    NoContentLength,
    /// A body is not followed by a terminator line.
    NoEndDelimiter,
    /// The body's name is followed by neither a line feed nor a length.
    NoNewlineAfterMethod,
    /// The value of a modifier is not followed by a line feed, and holds
    /// none: the value goes on behind the length that it declares.
    NoNewlineAfterModifier,
    /// The length of a modifier's value does not fit the machine word; or
    /// the value is not followed by a line feed and holds one: the length
    /// claims more than the value.
    InvalidModifierLength,
    /// No tab stands in front of a modifier's value.
    NoTabBeforeModifierValue,
    /// An operator is not followed by a name.
    NoModifierName,
    /// The length of the body is not followed by a line feed.
    NoNewlineAfterContentLength,
    /// Any other breach of the syntax.
    GenericError,
}

/// Why a list was rejected.
#[derive(Clone, Copy, Debug, PartialEq, Eq)]
pub enum PsycListParserError {
    /// A number sign announces a length, and no digit follows.
    NoElementLength,
    /// A length is malformed, does not fit the machine word, or is above the
    /// limit that the list declares; or the value of a counted element is
    /// not followed by a line feed and holds one: the length claims more
    /// than the value.
    InvalidElementLength,
    /// An element is framed in a way that the list's type does not permit.
    InvalidElementType,
    /// A line opens with a vertical bar and is no terminator line.
    InvalidElementStart,
    /// The list declares a type that is not known.
    InvalidType,
    /// Any other breach of the syntax.
    GenericError,
}

/// A token of a packet as a value: each slice stands as the bytes it holds.
pub enum Token {
    StateSync,
    StateReset,
    Complete,
    InsufficientData,
    RoutingModifier { operator: char, name: Seq<u8>, value: Seq<u8> },
    EntityModifier { operator: char, name: Seq<u8>, value: Seq<u8> },
    EntityModifierStart { operator: char, name: Seq<u8>, value_part: Seq<u8> },
    EntityModifierCont { value_part: Seq<u8> },
    EntityModifierEnd { value_part: Seq<u8> },
    Body { name: Seq<u8>, value: Seq<u8> },
    BodyStart { name: Seq<u8>, value_part: Seq<u8> },
    BodyCont { value_part: Seq<u8> },
    BodyEnd { value_part: Seq<u8> },
}

/// A token of a list as a value.
pub enum ListToken {
    Complete,
    InsufficientData,
    ListElement { value: Seq<u8> },
    ListElementStart { value_part: Seq<u8> },
    ListElementCont { value_part: Seq<u8> },
    ListElementEnd { value_part: Seq<u8> },
}

impl<'a> View for PsycParserResult<'a> {
    type V = Token;

    open spec fn view(&self) -> Token {
        match *self {
            PsycParserResult::StateSync => Token::StateSync,
            PsycParserResult::StateReset => Token::StateReset,
            PsycParserResult::Complete => Token::Complete,
            PsycParserResult::InsufficientData => Token::InsufficientData,
            PsycParserResult::RoutingModifier { operator, name, value } => Token::RoutingModifier {
                operator,
                name: name@,
                value: value@,
            },
            PsycParserResult::EntityModifier { operator, name, value } => Token::EntityModifier {
                operator,
                name: name@,
                value: value@,
            },
            PsycParserResult::EntityModifierStart {
                operator,
                name,
                value_part,
            } => Token::EntityModifierStart { operator, name: name@, value_part: value_part@ },
            PsycParserResult::EntityModifierCont { value_part } => Token::EntityModifierCont {
                value_part: value_part@,
            },
            PsycParserResult::EntityModifierEnd { value_part } => Token::EntityModifierEnd {
                value_part: value_part@,
            },
            PsycParserResult::Body { name, value } => Token::Body { name: name@, value: value@ },
            PsycParserResult::BodyStart { name, value_part } => Token::BodyStart {
                name: name@,
                value_part: value_part@,
            },
            PsycParserResult::BodyCont { value_part } => Token::BodyCont {
                value_part: value_part@,
            },
            PsycParserResult::BodyEnd { value_part } => Token::BodyEnd { value_part: value_part@ },
        }
    }
}

impl<'a> View for PsycListParserResult<'a> {
    type V = ListToken;

    open spec fn view(&self) -> ListToken {
        match *self {
            PsycListParserResult::Complete => ListToken::Complete,
            PsycListParserResult::InsufficientData => ListToken::InsufficientData,
            PsycListParserResult::ListElement { value } => ListToken::ListElement {
                value: value@,
            },
            PsycListParserResult::ListElementStart { value_part } => ListToken::ListElementStart {
                value_part: value_part@,
            },
            PsycListParserResult::ListElementCont { value_part } => ListToken::ListElementCont {
                value_part: value_part@,
            },
            PsycListParserResult::ListElementEnd { value_part } => ListToken::ListElementEnd {
                value_part: value_part@,
            },
        }
    }
}

/// What a call on a packet parser returned, as a value.
pub open spec fn outcome<'a>(r: Result<PsycParserResult<'a>, PsycParserError>) -> Result<
    Token,
    PsycParserError,
> {
    match r {
        Ok(token) => Ok(token@),
        Err(e) => Err(e),
    }
}

/// What a call on a list parser returned, as a value.
pub open spec fn list_outcome<'a>(
    r: Result<PsycListParserResult<'a>, PsycListParserError>,
) -> Result<ListToken, PsycListParserError> {
    match r {
        Ok(token) => Ok(token@),
        Err(e) => Err(e),
    }
}

} // verus!
