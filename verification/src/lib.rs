//! An incremental, zero-copy tokenizer for the PSYC wire syntax.
//!
//! Input arrives in fragments. The caller keeps the bytes in a buffer of its
//! own, hands the buffer to a parser and receives one token per call; the
//! slices in a token point into that buffer. When the bytes at hand do not
//! decide the next token the parser answers `InsufficientData`: the caller
//! moves the unparsed tail to the front of the buffer with
//! `copy_unparsed_into_buffer`, tells the parser with `rewind`, appends what
//! has arrived since, and calls again. A value that declares its length is
//! handed out in parts where the buffer does not hold all of it.
//!
//! [`PsycParser`] reads packets and [`PsycListParser`] reads lists. What a
//! call returns and how it changes the parser is laid down by the functions
//! `step` in [`packet`] and `list_step` in [`list`], which are the grammar;
//! the contracts of the parsers refer to them. [`laws`] and [`list_laws`]
//! prove what holds of every run of a parser, [`stream`] and [`list_stream`]
//! that input which arrives in parts gives the values that it gives as a
//! whole.

pub mod scan;
pub mod token;
pub mod packet;
pub mod parser;
pub mod list;
pub mod list_parser;
pub mod laws;
pub mod list_laws;
pub mod window;
pub mod stream;
pub mod list_stream;

pub use crate::list_parser::PsycListParser;
pub use crate::packet::PsycParseFlags;
pub use crate::parser::{Parser, PsycParser};
pub use crate::token::{
    PsycListParserError, PsycListParserResult, PsycParserError, PsycParserResult,
};
