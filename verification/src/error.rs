//! Error taxonomy: lexical failures wrapped with position, and structural
//! failures raised by the decoder.

use vstd::prelude::*;
use crate::lexer::LexerError;

verus! {

/// What token shape the decoder required when the stream disagreed.
#[derive(Debug, Copy, Clone, PartialEq, Eq, Structural)]
pub enum Expectation {
    StartTagName,
    StartTagClose,
    EndTag,
    Text,
    Content,
    AttributeValue,
    AttributeName,
    EmptyElementEnd,
    EndOfFile,
    TypeAttribute,
}

/// The reason a decode failed, without position information.
#[derive(Debug, Copy, Clone, PartialEq, Eq, Structural)]
pub enum ErrorCode {
    /// A malformed byte sequence, diagnosed by the tokenizer.
    LexingError(LexerError),
    /// The token at hand did not have the required shape.
    Expected(Expectation),
    /// A text payload was not valid UTF-8.
    NotUtf8,
    /// Content followed the document's root element.
    ExpectedEOF,
    /// A sequence appeared directly inside another sequence.
    XmlDoesntSupportSeqofSeq,
}

/// A decode failure. Syntax errors carry the line and column, one-based and
/// zero-based respectively, of the position at which decoding stopped.
#[derive(Debug, PartialEq)]
pub enum Error {
    SyntaxError(ErrorCode, usize, usize),
    /// A key was surfaced that the requested shape has no field for.
    UnknownField(Vec<u8>),
    /// A requested field never appeared and accepts no absent value.
    MissingField(Vec<u8>),
}

} // verus!
