//! Streaming decoder for a restricted subset of XML.
//!
//! A byte string is lexed into structural tokens (tag boundaries, attribute
//! names and values, text runs) by [`lexer::XmlIterator`], and a
//! shape-directed decoder in [`de`] walks those tokens to build a typed
//! in-memory value, reporting the line and column of the first malformed
//! byte on failure.

pub mod ws;
pub mod error;
pub mod lexer;
pub mod de;
