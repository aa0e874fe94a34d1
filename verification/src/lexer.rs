//! The streaming XML tokenizer.
//!
//! [`XmlIterator`] owns the input bytes, a cursor with line/column tracking,
//! a reusable accumulation buffer, and a secondary stash buffer. Each call to
//! [`XmlIterator::bump`] consumes bytes until one lexical token is complete.
//! The token grammar, including entity decoding, CDATA sections, comments,
//! declarations, and namespace-prefix stripping, is stated by the spec
//! scanners in this module; every `decode_*` step is proved against them.

use vstd::prelude::*;
use crate::ws::{is_ws_byte, all_ws, byte_is_ws, bytes_are_ws};
use crate::error::{Error, ErrorCode, Expectation};

verus! {

/// A lexical token paired with a copy of its payload bytes.
#[derive(Debug, PartialEq)]
pub enum Lexical {
    StartTagClose,
    Text(Vec<u8>),
    StartTagName(Vec<u8>),
    AttributeName(Vec<u8>),
    AttributeValue(Vec<u8>),
    EmptyElementEnd(Vec<u8>),
    EndTagName(Vec<u8>),
    StartOfFile,
    EndOfFile,
}

/// The kind of the current token; its payload lives in the shared buffer.
#[derive(Debug, Copy, Clone, PartialEq, Eq, Structural)]
pub enum TokenKind {
    StartTagClose,
    Text,
    StartTagName,
    AttributeName,
    AttributeValue,
    EmptyElementEnd,
    EndTagName,
    StartOfFile,
    EndOfFile,
}

/// Which sub-grammar the next token is read with.
#[derive(Debug, Copy, Clone, PartialEq, Eq, Structural)]
pub enum LexerState {
    Start,
    FirstAttribute,
    AttributeName,
    AttributeValue,
    Tag,
}

/// A malformed-byte diagnosis, before line/column information is attached.
#[derive(Debug, Copy, Clone, PartialEq, Eq, Structural)]
pub enum LexerError {
    EOF,
    ExpectedLT,
    ExpectedQuotes,
    Utf8,
    MixedElementsAndText,
    ExpectedEOF,
    ExpectedEq,
    BadComment,
    BadCDATA,
    BadCommentOrCDATA,
    BadDeclaration,
    BadEscapeSequence,
    Unexpected(u8),
    NotANumber(u8),
    NotAHex(u8),
    EscapedNotUtf8,
    Io,
}

/// One-based line number after consuming the bytes of `s`.
pub open spec fn line_of(s: Seq<u8>) -> nat
    decreases s.len(),
{
    if s.len() == 0 {
        1
    } else {
        line_of(s.drop_last()) + if s.last() == 0x0au8 { 1nat } else { 0nat }
    }
}

/// Column (bytes since the last line feed) after consuming the bytes of `s`.
pub open spec fn col_of(s: Seq<u8>) -> nat
    decreases s.len(),
{
    if s.len() == 0 {
        0
    } else if s.last() == 0x0au8 {
        0
    } else {
        col_of(s.drop_last()) + 1
    }
}

pub proof fn lemma_line_of_bound(s: Seq<u8>)
    ensures
        line_of(s) <= s.len() + 1,
    decreases s.len(),
{
    if s.len() > 0 {
        lemma_line_of_bound(s.drop_last());
    }
}

pub proof fn lemma_col_of_bound(s: Seq<u8>)
    ensures
        col_of(s) <= s.len(),
    decreases s.len(),
{
    if s.len() > 0 {
        lemma_col_of_bound(s.drop_last());
    }
}

/// The tokenizer: byte cursor, position tracker, token buffer, and stash.
pub struct XmlIterator {
    input: Vec<u8>,
    pos: usize,
    line: usize,
    col: usize,
    buf: Vec<u8>,
    stash: Vec<u8>,
    state: LexerState,
    ch: TokenKind,
}

impl XmlIterator {
    pub closed spec fn spec_input(self) -> Seq<u8> {
        self.input@
    }

    pub closed spec fn spec_pos(self) -> int {
        self.pos as int
    }

    pub closed spec fn spec_buf(self) -> Seq<u8> {
        self.buf@
    }

    pub closed spec fn spec_stash(self) -> Seq<u8> {
        self.stash@
    }

    pub closed spec fn spec_state(self) -> LexerState {
        self.state
    }

    pub closed spec fn spec_kind(self) -> TokenKind {
        self.ch
    }

    pub closed spec fn spec_line(self) -> nat {
        self.line as nat
    }

    pub closed spec fn spec_col(self) -> nat {
        self.col as nat
    }

    /// The line/column counters agree with the consumed prefix of the
    /// input.
    pub closed spec fn tracker_ok(self) -> bool {
        &&& self.line == line_of(self.input@.subrange(0, self.pos as int))
        &&& self.col == col_of(self.input@.subrange(0, self.pos as int))
    }

    /// The cursor is in bounds and the line/column counters agree with the
    /// consumed prefix of the input.
    pub open spec fn wf(self) -> bool {
        &&& 0 <= self.spec_pos() <= self.spec_input().len()
        &&& self.spec_input().len() < usize::MAX
        &&& self.tracker_ok()
    }

    /// Fresh tokenizer over the given bytes, positioned before any token.
    pub fn new(input: Vec<u8>) -> (r: XmlIterator)
        requires
            input@.len() < usize::MAX,
        ensures
            r.wf(),
            r.spec_input() == input@,
            r.spec_pos() == 0,
            r.spec_buf() == Seq::<u8>::empty(),
            r.spec_stash() == Seq::<u8>::empty(),
            r.spec_state() == LexerState::Start,
            r.spec_kind() == TokenKind::StartOfFile,
    {
        let r = XmlIterator {
            input,
            pos: 0,
            line: 1,
            col: 0,
            buf: Vec::new(),
            stash: Vec::new(),
            state: LexerState::Start,
            ch: TokenKind::StartOfFile,
        };
        proof {
            assert(r.input@.subrange(0, 0) =~= Seq::<u8>::empty());
        }
        r
    }

    /// The line of the most recently consumed byte's successor.
    pub fn line(&self) -> (r: usize)
        ensures
            r == self.spec_line(),
    {
        self.line
    }

    /// The column of the most recently consumed byte's successor.
    pub fn col(&self) -> (r: usize)
        ensures
            r == self.spec_col(),
    {
        self.col
    }

    /// Consume one byte, advancing the position tracker; `None` at end of
    /// input.
    fn take_byte(&mut self) -> (r: Option<u8>)
        requires
            old(self).wf(),
        ensures
            final(self).wf(),
            final(self).spec_input() == old(self).spec_input(),
            final(self).spec_buf() == old(self).spec_buf(),
            final(self).spec_stash() == old(self).spec_stash(),
            final(self).spec_state() == old(self).spec_state(),
            final(self).spec_kind() == old(self).spec_kind(),
            match r {
                Some(b) => {
                    &&& old(self).spec_pos() < old(self).spec_input().len()
                    &&& b == old(self).spec_input()[old(self).spec_pos()]
                    &&& final(self).spec_pos() == old(self).spec_pos() + 1
                },
                None => {
                    &&& old(self).spec_pos() == old(self).spec_input().len()
                    &&& final(self).spec_pos() == old(self).spec_pos()
                },
            },
    {
        if self.pos < self.input.len() {
            let b = self.input[self.pos];
            proof {
                let pre = self.input@.subrange(0, self.pos as int);
                lemma_line_of_bound(pre);
                lemma_col_of_bound(pre);
                assert(self.input@.subrange(0, self.pos as int + 1)
                    =~= pre.push(self.input@[self.pos as int]));
                assert(self.input@.subrange(0, self.pos as int + 1).drop_last() =~= pre);
            }
            self.pos = self.pos + 1;
            if b == 0x0au8 {
                self.line = self.line + 1;
                self.col = 0;
            } else {
                self.col = self.col + 1;
            }
            Some(b)
        } else {
            None
        }
    }

    /// Look at the next byte without consuming it.
    fn peek_byte(&self) -> (r: Option<u8>)
        requires
            self.wf(),
        ensures
            match r {
                Some(b) => {
                    &&& self.spec_pos() < self.spec_input().len()
                    &&& b == self.spec_input()[self.spec_pos()]
                },
                None => self.spec_pos() == self.spec_input().len(),
            },
    {
        if self.pos < self.input.len() {
            Some(self.input[self.pos])
        } else {
            None
        }
    }
}

} // verus!

verus! {

// ---------------------------------------------------------------------------
// Entity references
// ---------------------------------------------------------------------------

/// ASCII decimal digit.
pub open spec fn is_dec_digit(b: u8) -> bool {
    0x30 <= b <= 0x39
}

pub open spec fn dec_val(b: u8) -> nat {
    (b - 0x30) as nat
}

/// ASCII hexadecimal digit, either case.
pub open spec fn is_hex_digit(b: u8) -> bool {
    (0x30 <= b <= 0x39) || (0x61 <= b <= 0x66) || (0x41 <= b <= 0x46)
}

pub open spec fn hex_val(b: u8) -> nat {
    if 0x30 <= b <= 0x39 {
        (b - 0x30) as nat
    } else if 0x61 <= b <= 0x66 {
        (b - 0x61 + 10) as nat
    } else {
        (b - 0x41 + 10) as nat
    }
}

/// A Unicode scalar value: in range and not a surrogate.
pub open spec fn valid_codepoint(n: nat) -> bool {
    n <= 0x10FFFF && !(0xD800 <= n <= 0xDFFF)
}

/// The UTF-8 encoding of a Unicode scalar value.
pub open spec fn utf8_enc(n: nat) -> Seq<u8> {
    if n < 0x80 {
        seq![n as u8]
    } else if n < 0x800 {
        seq![(0xC0 + n / 0x40) as u8, (0x80 + n % 0x40) as u8]
    } else if n < 0x10000 {
        seq![
            (0xE0 + n / 0x1000) as u8,
            (0x80 + (n / 0x40) % 0x40) as u8,
            (0x80 + n % 0x40) as u8,
        ]
    } else {
        seq![
            (0xF0 + n / 0x40000) as u8,
            (0x80 + (n / 0x1000) % 0x40) as u8,
            (0x80 + (n / 0x40) % 0x40) as u8,
            (0x80 + n % 0x40) as u8,
        ]
    }
}

/// Decimal digits of a numeric character reference, up to the closing `;`.
/// `n` is the value accumulated so far and `lz` records that only zeros have
/// been seen, which are skipped without overflow checking.
pub open spec fn scan_dec_digits(s: Seq<u8>, i: int, n: nat, lz: bool) -> Result<(nat, int), LexerError>
    decreases s.len() - i,
{
    if i < 0 || i >= s.len() {
        Err(LexerError::EOF)
    } else if s[i] == 0x3bu8 {
        Ok((n, i + 1))
    } else if s[i] == 0x30u8 && lz {
        scan_dec_digits(s, i + 1, n, true)
    } else if n * 10 > u32::MAX as nat {
        Err(LexerError::EscapedNotUtf8)
    } else if !is_dec_digit(s[i]) {
        Err(LexerError::NotANumber(s[i]))
    } else if n * 10 + dec_val(s[i]) > u32::MAX as nat {
        Err(LexerError::EscapedNotUtf8)
    } else {
        scan_dec_digits(s, i + 1, n * 10 + dec_val(s[i]), false)
    }
}

/// Hexadecimal digits of a numeric character reference, up to `;`.
pub open spec fn scan_hex_digits(s: Seq<u8>, i: int, n: nat, lz: bool) -> Result<(nat, int), LexerError>
    decreases s.len() - i,
{
    if i < 0 || i >= s.len() {
        Err(LexerError::EOF)
    } else if s[i] == 0x3bu8 {
        Ok((n, i + 1))
    } else if s[i] == 0x30u8 && lz {
        scan_hex_digits(s, i + 1, n, true)
    } else if n * 16 > u32::MAX as nat {
        Err(LexerError::EscapedNotUtf8)
    } else if !is_hex_digit(s[i]) {
        Err(LexerError::NotAHex(s[i]))
    } else if n * 16 + hex_val(s[i]) > u32::MAX as nat {
        Err(LexerError::EscapedNotUtf8)
    } else {
        scan_hex_digits(s, i + 1, n * 16 + hex_val(s[i]), false)
    }
}

/// A scanned numeric value becomes the UTF-8 bytes of its code point, or
/// fails if it is no Unicode scalar value.
pub open spec fn finish_codepoint(r: Result<(nat, int), LexerError>) -> Result<(Seq<u8>, int), LexerError> {
    match r {
        Ok((n, j)) => if valid_codepoint(n) {
            Ok((utf8_enc(n), j))
        } else {
            Err(LexerError::EscapedNotUtf8)
        },
        Err(e) => Err(e),
    }
}

/// A numeric character reference starting after `&#`: decimal, or `x` and
/// hexadecimal.
pub open spec fn scan_numeric_entity(s: Seq<u8>, i: int) -> Result<(Seq<u8>, int), LexerError> {
    if i < 0 || i >= s.len() {
        Err(LexerError::EOF)
    } else if s[i] == 0x78u8 {
        finish_codepoint(scan_hex_digits(s, i + 1, 0, true))
    } else if !is_dec_digit(s[i]) {
        Err(LexerError::NotANumber(s[i]))
    } else {
        finish_codepoint(scan_dec_digits(s, i + 1, dec_val(s[i]), dec_val(s[i]) == 0))
    }
}

/// One byte of a named entity's tail, failing with `BadEscapeSequence` on a
/// mismatch.
pub open spec fn expect_lit_byte(s: Seq<u8>, i: int, c: u8) -> Result<int, LexerError> {
    if i < 0 || i >= s.len() {
        Err(LexerError::EOF)
    } else if s[i] == c {
        Ok(i + 1)
    } else {
        Err(LexerError::BadEscapeSequence)
    }
}

/// The closing `;` of a named entity; `out` is the decoded byte.
pub open spec fn expect_semi(s: Seq<u8>, i: int, out: u8) -> Result<(Seq<u8>, int), LexerError> {
    if i < 0 || i >= s.len() {
        Err(LexerError::EOF)
    } else if s[i] == 0x3bu8 {
        Ok((seq![out], i + 1))
    } else {
        Err(LexerError::BadEscapeSequence)
    }
}

/// An entity reference starting after `&`: one of the five named entities,
/// or a numeric reference. Yields the decoded bytes and the position after
/// the closing `;`.
pub open spec fn scan_entity(s: Seq<u8>, i: int) -> Result<(Seq<u8>, int), LexerError> {
    if i < 0 || i >= s.len() {
        Err(LexerError::EOF)
    } else if s[i] == 0x23u8 {  // '#'
        scan_numeric_entity(s, i + 1)
    } else if s[i] == 0x6cu8 {  // 'l' of "lt"
        match expect_lit_byte(s, i + 1, 0x74u8) {
            Ok(j) => expect_semi(s, j, 0x3cu8),
            Err(e) => Err(e),
        }
    } else if s[i] == 0x67u8 {  // 'g' of "gt"
        match expect_lit_byte(s, i + 1, 0x74u8) {
            Ok(j) => expect_semi(s, j, 0x3eu8),
            Err(e) => Err(e),
        }
    } else if s[i] == 0x61u8 {  // 'a' of "apos" or "amp"
        if i + 1 >= s.len() {
            Err(LexerError::EOF)
        } else if s[i + 1] == 0x70u8 {  // "apos"
            match expect_lit_byte(s, i + 2, 0x6fu8) {
                Ok(j) => match expect_lit_byte(s, j, 0x73u8) {
                    Ok(k) => expect_semi(s, k, 0x27u8),
                    Err(e) => Err(e),
                },
                Err(e) => Err(e),
            }
        } else if s[i + 1] == 0x6du8 {  // "amp"
            match expect_lit_byte(s, i + 2, 0x70u8) {
                Ok(j) => expect_semi(s, j, 0x26u8),
                Err(e) => Err(e),
            }
        } else {
            Err(LexerError::BadEscapeSequence)
        }
    } else if s[i] == 0x71u8 {  // 'q' of "quot"
        match expect_lit_byte(s, i + 1, 0x75u8) {
            Ok(j) => match expect_lit_byte(s, j, 0x6fu8) {
                Ok(k) => match expect_lit_byte(s, k, 0x74u8) {
                    Ok(l) => expect_semi(s, l, 0x22u8),
                    Err(e) => Err(e),
                },
                Err(e) => Err(e),
            },
            Err(e) => Err(e),
        }
    } else {
        Err(LexerError::BadEscapeSequence)
    }
}

/// Decimal digit to its value.
fn ch_to_num(ch: u8) -> (r: Result<u32, LexerError>)
    ensures
        match r {
            Ok(v) => is_dec_digit(ch) && v as nat == dec_val(ch),
            Err(e) => !is_dec_digit(ch) && e == LexerError::NotANumber(ch),
        },
{
    if 0x30 <= ch && ch <= 0x39 {
        Ok((ch - 0x30) as u32)
    } else {
        Err(LexerError::NotANumber(ch))
    }
}

/// Hexadecimal digit to its value.
fn hex_ch_to_num(ch: u8) -> (r: Result<u32, LexerError>)
    ensures
        match r {
            Ok(v) => is_hex_digit(ch) && v as nat == hex_val(ch),
            Err(e) => !is_hex_digit(ch) && e == LexerError::NotAHex(ch),
        },
{
    if 0x30 <= ch && ch <= 0x39 {
        Ok((ch - 0x30) as u32)
    } else if 0x61 <= ch && ch <= 0x66 {
        Ok((ch - 0x61) as u32 + 10)
    } else if 0x41 <= ch && ch <= 0x46 {
        Ok((ch - 0x41) as u32 + 10)
    } else {
        Err(LexerError::NotAHex(ch))
    }
}

} // verus!

verus! {

impl XmlIterator {
    /// Append the UTF-8 encoding of a Unicode scalar value to the buffer.
    fn push_utf8(&mut self, n: u32)
        requires
            old(self).wf(),
            valid_codepoint(n as nat),
        ensures
            final(self).wf(),
            final(self).spec_input() == old(self).spec_input(),
            final(self).spec_stash() == old(self).spec_stash(),
            final(self).spec_state() == old(self).spec_state(),
            final(self).spec_kind() == old(self).spec_kind(),
            final(self).spec_pos() == old(self).spec_pos(),
            final(self).spec_buf() == old(self).spec_buf() + utf8_enc(n as nat),
    {
        let ghost buf0 = self.spec_buf();
        if n < 0x80 {
            self.buf.push(n as u8);
            proof {
                assert(self.spec_buf() =~= buf0 + utf8_enc(n as nat));
            }
        } else if n < 0x800 {
            self.buf.push((0xC0 + n / 0x40) as u8);
            self.buf.push((0x80 + n % 0x40) as u8);
            proof {
                assert(self.spec_buf() =~= buf0 + utf8_enc(n as nat));
            }
        } else if n < 0x10000 {
            self.buf.push((0xE0 + n / 0x1000) as u8);
            self.buf.push((0x80 + (n / 0x40) % 0x40) as u8);
            self.buf.push((0x80 + n % 0x40) as u8);
            proof {
                assert(self.spec_buf() =~= buf0 + utf8_enc(n as nat));
            }
        } else {
            self.buf.push((0xF0 + n / 0x40000) as u8);
            self.buf.push((0x80 + (n / 0x1000) % 0x40) as u8);
            self.buf.push((0x80 + (n / 0x40) % 0x40) as u8);
            self.buf.push((0x80 + n % 0x40) as u8);
            proof {
                assert(self.spec_buf() =~= buf0 + utf8_enc(n as nat));
            }
        }
    }

    /// Hexadecimal digits of `&#x...;`, appended to the buffer as one
    /// decoded code point.
    fn decode_escaped_hex(&mut self) -> (r: Result<(), LexerError>)
        requires
            old(self).wf(),
        ensures
            final(self).wf(),
            final(self).spec_input() == old(self).spec_input(),
            final(self).spec_stash() == old(self).spec_stash(),
            final(self).spec_state() == old(self).spec_state(),
            final(self).spec_kind() == old(self).spec_kind(),
            match finish_codepoint(scan_hex_digits(old(self).spec_input(), old(self).spec_pos(), 0, true)) {
                Ok::<(Seq<u8>, int), LexerError>((bytes, j)) => {
                    &&& r == Ok::<(), LexerError>(())
                    &&& final(self).spec_buf() == old(self).spec_buf() + bytes
                    &&& final(self).spec_pos() == j
                    &&& final(self).spec_pos() > old(self).spec_pos()
                },
                Err(e) => r == Err::<(), LexerError>(e) && final(self).spec_buf() == old(
                    self,
                ).spec_buf(),
            },
    {
        let mut n: u32 = 0;
        let mut lz: bool = true;
        loop
            invariant
                self.wf(),
                self.spec_input() == old(self).spec_input(),
                self.spec_stash() == old(self).spec_stash(),
                self.spec_state() == old(self).spec_state(),
                self.spec_kind() == old(self).spec_kind(),
                self.spec_buf() == old(self).spec_buf(),
                old(self).spec_pos() <= self.spec_pos(),
                scan_hex_digits(self.spec_input(), self.spec_pos(), n as nat, lz)
                    == scan_hex_digits(old(self).spec_input(), old(self).spec_pos(), 0, true),
            decreases self.spec_input().len() - self.spec_pos(),
        {
            match self.take_byte() {
                None => {
                    return Err(LexerError::EOF);
                },
                Some(c) => {
                    if c == 0x3b {
                        if n <= 0x10FFFF && !(0xD800 <= n && n <= 0xDFFF) {
                            self.push_utf8(n);
                            return Ok(());
                        } else {
                            return Err(LexerError::EscapedNotUtf8);
                        }
                    } else if c == 0x30 && lz {
                        // only leading zeros so far; skip
                    } else {
                        if n > 0x0fffffff {
                            return Err(LexerError::EscapedNotUtf8);
                        }
                        let m = n * 16;
                        let d = match hex_ch_to_num(c) {
                            Ok(d) => d,
                            Err(e) => return Err(e),
                        };
                        if d > u32::MAX - m {
                            return Err(LexerError::EscapedNotUtf8);
                        }
                        n = m + d;
                        lz = false;
                    }
                },
            }
        }
    }

    /// A numeric character reference after `&#`: decimal digits, or `x` and
    /// hexadecimal digits, appended to the buffer as one decoded code point.
    fn decode_escaped_num(&mut self) -> (r: Result<(), LexerError>)
        requires
            old(self).wf(),
        ensures
            final(self).wf(),
            final(self).spec_input() == old(self).spec_input(),
            final(self).spec_stash() == old(self).spec_stash(),
            final(self).spec_state() == old(self).spec_state(),
            final(self).spec_kind() == old(self).spec_kind(),
            match scan_numeric_entity(old(self).spec_input(), old(self).spec_pos()) {
                Ok::<(Seq<u8>, int), LexerError>((bytes, j)) => {
                    &&& r == Ok::<(), LexerError>(())
                    &&& final(self).spec_buf() == old(self).spec_buf() + bytes
                    &&& final(self).spec_pos() == j
                    &&& final(self).spec_pos() > old(self).spec_pos()
                },
                Err(e) => r == Err::<(), LexerError>(e) && final(self).spec_buf() == old(
                    self,
                ).spec_buf(),
            },
    {
        let first = match self.take_byte() {
            None => return Err(LexerError::EOF),
            Some(c) => c,
        };
        if first == 0x78 {
            return self.decode_escaped_hex();
        }
        let mut n: u32 = match ch_to_num(first) {
            Ok(d) => d,
            Err(e) => return Err(e),
        };
        let mut lz: bool = n == 0;
        loop
            invariant
                self.wf(),
                self.spec_input() == old(self).spec_input(),
                self.spec_stash() == old(self).spec_stash(),
                self.spec_state() == old(self).spec_state(),
                self.spec_kind() == old(self).spec_kind(),
                self.spec_buf() == old(self).spec_buf(),
                old(self).spec_pos() < self.spec_pos(),
                finish_codepoint(scan_dec_digits(self.spec_input(), self.spec_pos(), n as nat, lz))
                    == scan_numeric_entity(old(self).spec_input(), old(self).spec_pos()),
            decreases self.spec_input().len() - self.spec_pos(),
        {
            match self.take_byte() {
                None => {
                    return Err(LexerError::EOF);
                },
                Some(c) => {
                    if c == 0x3b {
                        if n <= 0x10FFFF && !(0xD800 <= n && n <= 0xDFFF) {
                            self.push_utf8(n);
                            return Ok(());
                        } else {
                            return Err(LexerError::EscapedNotUtf8);
                        }
                    } else if c == 0x30 && lz {
                        // only leading zeros so far; skip
                    } else {
                        if n > 429496729 {
                            return Err(LexerError::EscapedNotUtf8);
                        }
                        let m = n * 10;
                        let d = match ch_to_num(c) {
                            Ok(d) => d,
                            Err(e) => return Err(e),
                        };
                        if d > u32::MAX - m {
                            return Err(LexerError::EscapedNotUtf8);
                        }
                        n = m + d;
                        lz = false;
                    }
                },
            }
        }
    }
}

} // verus!

verus! {

// ---------------------------------------------------------------------------
// Comments, CDATA sections, declarations
// ---------------------------------------------------------------------------

/// Tolerant search for the comment terminator `-->`: a false start consumes
/// the bytes it inspected and the search resumes after them.
pub open spec fn scan_comment_end(s: Seq<u8>, i: int) -> Result<int, LexerError>
    decreases s.len() - i,
{
    if i < 0 || i >= s.len() {
        Err(LexerError::EOF)
    } else if s[i] != 0x2du8 {
        scan_comment_end(s, i + 1)
    } else if i + 1 >= s.len() {
        Err(LexerError::EOF)
    } else if s[i + 1] != 0x2du8 {
        scan_comment_end(s, i + 2)
    } else if i + 2 >= s.len() {
        Err(LexerError::EOF)
    } else if s[i + 2] != 0x3eu8 {
        scan_comment_end(s, i + 3)
    } else {
        Ok(i + 3)
    }
}

/// A comment after `<!-`: the second `-`, then everything up to `-->` is
/// discarded.
pub open spec fn scan_comment(s: Seq<u8>, i: int) -> Result<int, LexerError> {
    if i < 0 || i >= s.len() {
        Err(LexerError::EOF)
    } else if s[i] != 0x2du8 {
        Err(LexerError::BadComment)
    } else {
        scan_comment_end(s, i + 1)
    }
}

/// CDATA content scan: bytes are copied verbatim until `]]>`; `]` bytes of a
/// false terminator start are re-emitted rather than dropped.
pub open spec fn scan_cdata_end(s: Seq<u8>, i: int, acc: Seq<u8>) -> Result<(Seq<u8>, int), LexerError>
    decreases s.len() - i,
{
    if i < 0 || i >= s.len() {
        Err(LexerError::EOF)
    } else if s[i] != 0x5du8 {
        scan_cdata_end(s, i + 1, acc.push(s[i]))
    } else if i + 1 >= s.len() {
        Err(LexerError::EOF)
    } else if s[i + 1] != 0x5du8 {
        scan_cdata_end(s, i + 2, acc + seq![0x5du8, s[i + 1]])
    } else if i + 2 >= s.len() {
        Err(LexerError::EOF)
    } else if s[i + 2] != 0x3eu8 {
        scan_cdata_end(s, i + 3, acc + seq![0x5du8, 0x5du8, s[i + 2]])
    } else {
        Ok((acc, i + 3))
    }
}

/// One literal byte of a markup keyword, with the given failure code.
pub open spec fn expect_kw_byte(s: Seq<u8>, i: int, c: u8, err: LexerError) -> Result<int, LexerError> {
    if i < 0 || i >= s.len() {
        Err(LexerError::EOF)
    } else if s[i] == c {
        Ok(i + 1)
    } else {
        Err(err)
    }
}

/// The literal `CDATA[` after `<![`, with the given failure code per byte.
pub open spec fn scan_cdata_kw(s: Seq<u8>, i: int) -> Result<int, LexerError> {
    match expect_kw_byte(s, i, 0x43u8, LexerError::BadCDATA) {
        Ok(a) => match expect_kw_byte(s, a, 0x44u8, LexerError::BadCDATA) {
            Ok(b) => match expect_kw_byte(s, b, 0x41u8, LexerError::BadCDATA) {
                Ok(c) => match expect_kw_byte(s, c, 0x54u8, LexerError::BadCDATA) {
                    Ok(d) => match expect_kw_byte(s, d, 0x41u8, LexerError::BadCDATA) {
                        Ok(e) => expect_kw_byte(s, e, 0x5bu8, LexerError::BadCDATA),
                        Err(e) => Err(e),
                    },
                    Err(e) => Err(e),
                },
                Err(e) => Err(e),
            },
            Err(e) => Err(e),
        },
        Err(e) => Err(e),
    }
}

/// A CDATA section after `<![`: the keyword, then verbatim content.
pub open spec fn scan_cdata(s: Seq<u8>, i: int) -> Result<(Seq<u8>, int), LexerError> {
    match scan_cdata_kw(s, i) {
        Ok(j) => scan_cdata_end(s, j, Seq::empty()),
        Err(e) => Err(e),
    }
}

/// Markup after `<!`: a comment (content discarded) or a CDATA section
/// (content kept).
pub open spec fn scan_markup(s: Seq<u8>, i: int) -> Result<(Seq<u8>, int), LexerError> {
    if i < 0 || i >= s.len() {
        Err(LexerError::EOF)
    } else if s[i] == 0x2du8 {
        match scan_comment(s, i + 1) {
            Ok(j) => Ok((Seq::empty(), j)),
            Err(e) => Err(e),
        }
    } else if s[i] == 0x5bu8 {
        scan_cdata(s, i + 1)
    } else {
        Err(LexerError::BadCommentOrCDATA)
    }
}

/// Tolerant search for the declaration terminator `?>`.
pub open spec fn scan_decl_end(s: Seq<u8>, i: int) -> Result<int, LexerError>
    decreases s.len() - i,
{
    if i < 0 || i >= s.len() {
        Err(LexerError::EOF)
    } else if s[i] != 0x3fu8 {
        scan_decl_end(s, i + 1)
    } else if i + 1 >= s.len() {
        Err(LexerError::EOF)
    } else if s[i + 1] != 0x3eu8 {
        scan_decl_end(s, i + 2)
    } else {
        Ok(i + 2)
    }
}

/// A declaration after `<?`: the literal `xml`, then everything up to `?>`
/// is discarded.
pub open spec fn scan_declaration(s: Seq<u8>, i: int) -> Result<int, LexerError> {
    match expect_kw_byte(s, i, 0x78u8, LexerError::BadDeclaration) {
        Ok(a) => match expect_kw_byte(s, a, 0x6du8, LexerError::BadDeclaration) {
            Ok(b) => match expect_kw_byte(s, b, 0x6cu8, LexerError::BadDeclaration) {
                Ok(c) => scan_decl_end(s, c),
                Err(e) => Err(e),
            },
            Err(e) => Err(e),
        },
        Err(e) => Err(e),
    }
}

impl XmlIterator {
    /// One byte of a named entity's tail.
    fn expect_escape_byte(&mut self, c: u8) -> (r: Result<(), LexerError>)
        requires
            old(self).wf(),
        ensures
            final(self).wf(),
            final(self).spec_input() == old(self).spec_input(),
            final(self).spec_buf() == old(self).spec_buf(),
            final(self).spec_stash() == old(self).spec_stash(),
            final(self).spec_state() == old(self).spec_state(),
            final(self).spec_kind() == old(self).spec_kind(),
            match expect_lit_byte(old(self).spec_input(), old(self).spec_pos(), c) {
                Ok::<int, LexerError>(j) => r == Ok::<(), LexerError>(()) && final(self).spec_pos() == j,
                Err(e) => r == Err::<(), LexerError>(e),
            },
    {
        match self.take_byte() {
            None => Err(LexerError::EOF),
            Some(b) => {
                if b == c {
                    Ok(())
                } else {
                    Err(LexerError::BadEscapeSequence)
                }
            },
        }
    }

    /// One byte of a markup keyword, with the given failure code.
    fn expect_markup_byte(&mut self, c: u8, err: LexerError) -> (r: Result<(), LexerError>)
        requires
            old(self).wf(),
        ensures
            final(self).wf(),
            final(self).spec_input() == old(self).spec_input(),
            final(self).spec_buf() == old(self).spec_buf(),
            final(self).spec_stash() == old(self).spec_stash(),
            final(self).spec_state() == old(self).spec_state(),
            final(self).spec_kind() == old(self).spec_kind(),
            match expect_kw_byte(old(self).spec_input(), old(self).spec_pos(), c, err) {
                Ok::<int, LexerError>(j) => r == Ok::<(), LexerError>(()) && final(self).spec_pos() == j,
                Err(e) => r == Err::<(), LexerError>(e),
            },
    {
        match self.take_byte() {
            None => Err(LexerError::EOF),
            Some(b) => {
                if b == c {
                    Ok(())
                } else {
                    Err(err)
                }
            },
        }
    }

    /// The closing `;` of a named entity; on success the decoded byte is
    /// appended to the buffer.
    fn finish_named_entity(&mut self, out: u8) -> (r: Result<(), LexerError>)
        requires
            old(self).wf(),
        ensures
            final(self).wf(),
            final(self).spec_input() == old(self).spec_input(),
            final(self).spec_stash() == old(self).spec_stash(),
            final(self).spec_state() == old(self).spec_state(),
            final(self).spec_kind() == old(self).spec_kind(),
            match expect_semi(old(self).spec_input(), old(self).spec_pos(), out) {
                Ok::<(Seq<u8>, int), LexerError>((bytes, j)) => {
                    &&& r == Ok::<(), LexerError>(())
                    &&& final(self).spec_buf() == old(self).spec_buf() + bytes
                    &&& final(self).spec_pos() == j
                },
                Err(e) => r == Err::<(), LexerError>(e) && final(self).spec_buf() == old(self).spec_buf(),
            },
    {
        match self.take_byte() {
            None => Err(LexerError::EOF),
            Some(b) => {
                if b == 0x3b {
                    let ghost buf0 = self.spec_buf();
                    self.buf.push(out);
                    proof {
                        assert(self.spec_buf() =~= buf0 + seq![out]);
                    }
                    Ok(())
                } else {
                    Err(LexerError::BadEscapeSequence)
                }
            },
        }
    }

    /// An entity reference after `&`; the decoded bytes are appended to the
    /// buffer in place of the reference.
    fn decode_escaped(&mut self) -> (r: Result<(), LexerError>)
        requires
            old(self).wf(),
        ensures
            final(self).wf(),
            final(self).spec_input() == old(self).spec_input(),
            final(self).spec_stash() == old(self).spec_stash(),
            final(self).spec_state() == old(self).spec_state(),
            final(self).spec_kind() == old(self).spec_kind(),
            match scan_entity(old(self).spec_input(), old(self).spec_pos()) {
                Ok::<(Seq<u8>, int), LexerError>((bytes, j)) => {
                    &&& r == Ok::<(), LexerError>(())
                    &&& final(self).spec_buf() == old(self).spec_buf() + bytes
                    &&& final(self).spec_pos() == j
                    &&& final(self).spec_pos() > old(self).spec_pos()
                },
                Err(e) => r == Err::<(), LexerError>(e) && final(self).spec_buf() == old(
                    self,
                ).spec_buf(),
            },
    {
        let first = match self.take_byte() {
            None => return Err(LexerError::EOF),
            Some(c) => c,
        };
        if first == 0x23 {
            // numeric reference
            self.decode_escaped_num()
        } else if first == 0x6c {
            match self.expect_escape_byte(0x74) {
                Ok(()) => self.finish_named_entity(0x3c),
                Err(e) => Err(e),
            }
        } else if first == 0x67 {
            match self.expect_escape_byte(0x74) {
                Ok(()) => self.finish_named_entity(0x3e),
                Err(e) => Err(e),
            }
        } else if first == 0x61 {
            let second = match self.take_byte() {
                None => return Err(LexerError::EOF),
                Some(c) => c,
            };
            if second == 0x70 {
                match self.expect_escape_byte(0x6f) {
                    Ok(()) => match self.expect_escape_byte(0x73) {
                        Ok(()) => self.finish_named_entity(0x27),
                        Err(e) => Err(e),
                    },
                    Err(e) => Err(e),
                }
            } else if second == 0x6d {
                match self.expect_escape_byte(0x70) {
                    Ok(()) => self.finish_named_entity(0x26),
                    Err(e) => Err(e),
                }
            } else {
                Err(LexerError::BadEscapeSequence)
            }
        } else if first == 0x71 {
            match self.expect_escape_byte(0x75) {
                Ok(()) => match self.expect_escape_byte(0x6f) {
                    Ok(()) => match self.expect_escape_byte(0x74) {
                        Ok(()) => self.finish_named_entity(0x22),
                        Err(e) => Err(e),
                    },
                    Err(e) => Err(e),
                },
                Err(e) => Err(e),
            }
        } else {
            Err(LexerError::BadEscapeSequence)
        }
    }
}

} // verus!

verus! {

impl XmlIterator {
    /// A comment after `<!-`: checks the second `-` and discards content
    /// through `-->`.
    fn decode_comment(&mut self) -> (r: Result<(), LexerError>)
        requires
            old(self).wf(),
        ensures
            final(self).wf(),
            final(self).spec_input() == old(self).spec_input(),
            final(self).spec_buf() == old(self).spec_buf(),
            final(self).spec_stash() == old(self).spec_stash(),
            final(self).spec_state() == old(self).spec_state(),
            final(self).spec_kind() == old(self).spec_kind(),
            match scan_comment(old(self).spec_input(), old(self).spec_pos()) {
                Ok::<int, LexerError>(j) => {
                    &&& r == Ok::<(), LexerError>(())
                    &&& final(self).spec_pos() == j
                    &&& final(self).spec_pos() > old(self).spec_pos()
                },
                Err(e) => r == Err::<(), LexerError>(e),
            },
    {
        match self.expect_markup_byte(0x2d, LexerError::BadComment) {
            Ok(()) => {},
            Err(e) => return Err(e),
        }
        loop
            invariant
                self.wf(),
                self.spec_input() == old(self).spec_input(),
                self.spec_buf() == old(self).spec_buf(),
                self.spec_stash() == old(self).spec_stash(),
                self.spec_state() == old(self).spec_state(),
                self.spec_kind() == old(self).spec_kind(),
                old(self).spec_pos() < self.spec_pos(),
                scan_comment_end(self.spec_input(), self.spec_pos())
                    == scan_comment(old(self).spec_input(), old(self).spec_pos()),
            decreases self.spec_input().len() - self.spec_pos(),
        {
            let c1 = match self.take_byte() {
                None => return Err(LexerError::EOF),
                Some(c) => c,
            };
            if c1 != 0x2d {
                continue;
            }
            let c2 = match self.take_byte() {
                None => return Err(LexerError::EOF),
                Some(c) => c,
            };
            if c2 != 0x2d {
                continue;
            }
            let c3 = match self.take_byte() {
                None => return Err(LexerError::EOF),
                Some(c) => c,
            };
            if c3 != 0x3e {
                continue;
            }
            return Ok(());
        }
    }

    /// A CDATA section after `<![`: checks the keyword and copies content
    /// verbatim into the buffer up to `]]>`.
    fn decode_cdata(&mut self) -> (r: Result<(), LexerError>)
        requires
            old(self).wf(),
        ensures
            final(self).wf(),
            final(self).spec_input() == old(self).spec_input(),
            final(self).spec_stash() == old(self).spec_stash(),
            final(self).spec_state() == old(self).spec_state(),
            final(self).spec_kind() == old(self).spec_kind(),
            match scan_cdata(old(self).spec_input(), old(self).spec_pos()) {
                Ok::<(Seq<u8>, int), LexerError>((bytes, j)) => {
                    &&& r == Ok::<(), LexerError>(())
                    &&& final(self).spec_buf() == old(self).spec_buf() + bytes
                    &&& final(self).spec_pos() == j
                    &&& final(self).spec_pos() > old(self).spec_pos()
                },
                Err(e) => r == Err::<(), LexerError>(e),
            },
    {
        match self.expect_markup_byte(0x43, LexerError::BadCDATA) {
            Ok(()) => {},
            Err(e) => return Err(e),
        }
        match self.expect_markup_byte(0x44, LexerError::BadCDATA) {
            Ok(()) => {},
            Err(e) => return Err(e),
        }
        match self.expect_markup_byte(0x41, LexerError::BadCDATA) {
            Ok(()) => {},
            Err(e) => return Err(e),
        }
        match self.expect_markup_byte(0x54, LexerError::BadCDATA) {
            Ok(()) => {},
            Err(e) => return Err(e),
        }
        match self.expect_markup_byte(0x41, LexerError::BadCDATA) {
            Ok(()) => {},
            Err(e) => return Err(e),
        }
        match self.expect_markup_byte(0x5b, LexerError::BadCDATA) {
            Ok(()) => {},
            Err(e) => return Err(e),
        }
        let ghost mut delta: Seq<u8> = Seq::empty();
        proof {
            assert(self.spec_buf() =~= old(self).spec_buf() + delta);
        }
        loop
            invariant
                self.wf(),
                self.spec_input() == old(self).spec_input(),
                self.spec_stash() == old(self).spec_stash(),
                self.spec_state() == old(self).spec_state(),
                self.spec_kind() == old(self).spec_kind(),
                self.spec_buf() == old(self).spec_buf() + delta,
                old(self).spec_pos() < self.spec_pos(),
                scan_cdata_end(self.spec_input(), self.spec_pos(), delta)
                    == scan_cdata(old(self).spec_input(), old(self).spec_pos()),
            decreases self.spec_input().len() - self.spec_pos(),
        {
            let ghost buf_pre = self.spec_buf();
            let c1 = match self.take_byte() {
                None => return Err(LexerError::EOF),
                Some(c) => c,
            };
            if c1 != 0x5d {
                self.buf.push(c1);
                proof {
                    delta = delta.push(c1);
                    assert(self.spec_buf() =~= old(self).spec_buf() + delta);
                }
                continue;
            }
            let c2 = match self.take_byte() {
                None => return Err(LexerError::EOF),
                Some(c) => c,
            };
            if c2 != 0x5d {
                self.buf.push(0x5d);
                self.buf.push(c2);
                proof {
                    delta = delta + seq![0x5du8, c2];
                    assert(self.spec_buf() =~= old(self).spec_buf() + delta);
                }
                continue;
            }
            let c3 = match self.take_byte() {
                None => return Err(LexerError::EOF),
                Some(c) => c,
            };
            if c3 != 0x3e {
                self.buf.push(0x5d);
                self.buf.push(0x5d);
                self.buf.push(c3);
                proof {
                    delta = delta + seq![0x5du8, 0x5du8, c3];
                    assert(self.spec_buf() =~= old(self).spec_buf() + delta);
                }
                continue;
            }
            return Ok(());
        }
    }

    /// Markup after `<!`: a comment is skipped, CDATA content joins the
    /// buffer.
    fn decode_comment_or_cdata(&mut self) -> (r: Result<(), LexerError>)
        requires
            old(self).wf(),
        ensures
            final(self).wf(),
            final(self).spec_input() == old(self).spec_input(),
            final(self).spec_stash() == old(self).spec_stash(),
            final(self).spec_state() == old(self).spec_state(),
            final(self).spec_kind() == old(self).spec_kind(),
            match scan_markup(old(self).spec_input(), old(self).spec_pos()) {
                Ok::<(Seq<u8>, int), LexerError>((bytes, j)) => {
                    &&& r == Ok::<(), LexerError>(())
                    &&& final(self).spec_buf() == old(self).spec_buf() + bytes
                    &&& final(self).spec_pos() == j
                    &&& final(self).spec_pos() > old(self).spec_pos()
                },
                Err(e) => r == Err::<(), LexerError>(e),
            },
    {
        match self.take_byte() {
            None => Err(LexerError::EOF),
            Some(c) => {
                if c == 0x2d {
                    let r = self.decode_comment();
                    proof {
                        if r is Ok {
                            assert(self.spec_buf() =~= old(self).spec_buf() + Seq::<u8>::empty());
                        }
                    }
                    r
                } else if c == 0x5b {
                    self.decode_cdata()
                } else {
                    Err(LexerError::BadCommentOrCDATA)
                }
            },
        }
    }

    /// A declaration after `<?`: checks the `xml` keyword and discards
    /// content through `?>`.
    fn decode_declaration(&mut self) -> (r: Result<(), LexerError>)
        requires
            old(self).wf(),
        ensures
            final(self).wf(),
            final(self).spec_input() == old(self).spec_input(),
            final(self).spec_buf() == old(self).spec_buf(),
            final(self).spec_stash() == old(self).spec_stash(),
            final(self).spec_state() == old(self).spec_state(),
            final(self).spec_kind() == old(self).spec_kind(),
            match scan_declaration(old(self).spec_input(), old(self).spec_pos()) {
                Ok::<int, LexerError>(j) => {
                    &&& r == Ok::<(), LexerError>(())
                    &&& final(self).spec_pos() == j
                    &&& final(self).spec_pos() > old(self).spec_pos()
                },
                Err(e) => r == Err::<(), LexerError>(e),
            },
    {
        match self.expect_markup_byte(0x78, LexerError::BadDeclaration) {
            Ok(()) => {},
            Err(e) => return Err(e),
        }
        match self.expect_markup_byte(0x6d, LexerError::BadDeclaration) {
            Ok(()) => {},
            Err(e) => return Err(e),
        }
        match self.expect_markup_byte(0x6c, LexerError::BadDeclaration) {
            Ok(()) => {},
            Err(e) => return Err(e),
        }
        loop
            invariant
                self.wf(),
                self.spec_input() == old(self).spec_input(),
                self.spec_buf() == old(self).spec_buf(),
                self.spec_stash() == old(self).spec_stash(),
                self.spec_state() == old(self).spec_state(),
                self.spec_kind() == old(self).spec_kind(),
                old(self).spec_pos() < self.spec_pos(),
                scan_decl_end(self.spec_input(), self.spec_pos())
                    == scan_declaration(old(self).spec_input(), old(self).spec_pos()),
            decreases self.spec_input().len() - self.spec_pos(),
        {
            let c1 = match self.take_byte() {
                None => return Err(LexerError::EOF),
                Some(c) => c,
            };
            if c1 != 0x3f {
                continue;
            }
            let c2 = match self.take_byte() {
                None => return Err(LexerError::EOF),
                Some(c) => c,
            };
            if c2 != 0x3e {
                continue;
            }
            return Ok(());
        }
    }
}

} // verus!

verus! {

// ---------------------------------------------------------------------------
// Names, attributes, attribute values
// ---------------------------------------------------------------------------

/// The part of a name after its last colon: namespace prefixes are dropped.
pub open spec fn local_name(s: Seq<u8>) -> Seq<u8>
    decreases s.len(),
{
    if s.len() == 0 {
        s
    } else if s.last() == 0x3au8 {
        Seq::empty()
    } else {
        local_name(s.drop_last()).push(s.last())
    }
}

/// A byte that terminates a start-tag name: whitespace, `/`, or `>`.
pub open spec fn is_name_end(b: u8) -> bool {
    is_ws_byte(b) || b == 0x2fu8 || b == 0x3eu8
}

/// A start-tag name: accumulates bytes, resets at each colon, and stops
/// (without consuming) at whitespace, `/`, or `>`.
pub open spec fn scan_name(s: Seq<u8>, i: int, acc: Seq<u8>) -> Result<(Seq<u8>, int), LexerError>
    decreases s.len() - i,
{
    if i < 0 || i >= s.len() {
        Err(LexerError::EOF)
    } else if is_name_end(s[i]) {
        Ok((acc, i))
    } else if s[i] == 0x3au8 {
        scan_name(s, i + 1, Seq::empty())
    } else {
        scan_name(s, i + 1, acc.push(s[i]))
    }
}

/// An end-tag name: accumulates bytes, resets at each colon, and stops at
/// the consumed `>`.
pub open spec fn scan_end_name(s: Seq<u8>, i: int, acc: Seq<u8>) -> Result<(Seq<u8>, int), LexerError>
    decreases s.len() - i,
{
    if i < 0 || i >= s.len() {
        Err(LexerError::EOF)
    } else if s[i] == 0x3eu8 {
        Ok((acc, i + 1))
    } else if s[i] == 0x3au8 {
        scan_end_name(s, i + 1, Seq::empty())
    } else {
        scan_end_name(s, i + 1, acc.push(s[i]))
    }
}

/// First occurrence of a byte at or after `i`.
pub open spec fn find_byte(s: Seq<u8>, i: int, b: u8) -> Option<int>
    decreases s.len() - i,
{
    if i < 0 || i >= s.len() {
        None
    } else if s[i] == b {
        Some(i)
    } else {
        find_byte(s, i + 1, b)
    }
}

/// First quote character, single or double, at or after `i`.
pub open spec fn find_quote(s: Seq<u8>, i: int) -> Option<int>
    decreases s.len() - i,
{
    if i < 0 || i >= s.len() {
        None
    } else if s[i] == 0x27u8 || s[i] == 0x22u8 {
        Some(i)
    } else {
        find_quote(s, i + 1, )
    }
}

/// An attribute value: everything before the first quote is skipped, the
/// value runs to the matching quote, with no entity decoding inside.
pub open spec fn scan_attr_value(s: Seq<u8>, i: int) -> Result<(Seq<u8>, int), LexerError> {
    match find_quote(s, i) {
        None => Err(LexerError::EOF),
        Some(q) => match find_byte(s, q + 1, s[q]) {
            None => Err(LexerError::EOF),
            Some(j) => Ok((s.subrange(q + 1, j), j + 1)),
        },
    }
}

impl XmlIterator {
    /// An end tag's name (after `</`), consuming the closing `>`. The buffer
    /// receives the name with its namespace prefix stripped.
    fn decode_tag(&mut self) -> (r: Result<TokenKind, LexerError>)
        requires
            old(self).wf(),
            old(self).spec_buf() == Seq::<u8>::empty(),
        ensures
            final(self).wf(),
            final(self).spec_input() == old(self).spec_input(),
            final(self).spec_stash() == old(self).spec_stash(),
            final(self).spec_kind() == old(self).spec_kind(),
            match scan_end_name(old(self).spec_input(), old(self).spec_pos(), Seq::<u8>::empty()) {
                Ok::<(Seq<u8>, int), LexerError>((name, j)) => {
                    &&& r == Ok::<TokenKind, LexerError>(TokenKind::EndTagName)
                    &&& final(self).spec_buf() == name
                    &&& final(self).spec_pos() == j
                    &&& final(self).spec_state() == LexerState::Start
                },
                Err(e) => r == Err::<TokenKind, LexerError>(e),
            },
    {
        loop
            invariant
                self.wf(),
                self.spec_input() == old(self).spec_input(),
                self.spec_stash() == old(self).spec_stash(),
                self.spec_state() == old(self).spec_state(),
                self.spec_kind() == old(self).spec_kind(),
                scan_end_name(self.spec_input(), self.spec_pos(), self.spec_buf())
                    == scan_end_name(old(self).spec_input(), old(self).spec_pos(), Seq::<u8>::empty()),
            decreases self.spec_input().len() - self.spec_pos(),
        {
            match self.take_byte() {
                None => return Err(LexerError::EOF),
                Some(c) => {
                    if c == 0x3e {
                        self.state = LexerState::Start;
                        return Ok(TokenKind::EndTagName);
                    } else if c == 0x3a {
                        self.buf.clear();
                    } else {
                        self.buf.push(c);
                    }
                },
            }
        }
    }

    /// A start-tag name (after `<`), stopping before its terminator. The
    /// buffer receives the name with its namespace prefix stripped.
    fn decode_tag_name(&mut self) -> (r: Result<TokenKind, LexerError>)
        requires
            old(self).wf(),
        ensures
            final(self).wf(),
            final(self).spec_input() == old(self).spec_input(),
            final(self).spec_stash() == old(self).spec_stash(),
            final(self).spec_kind() == old(self).spec_kind(),
            match scan_name(old(self).spec_input(), old(self).spec_pos(), old(self).spec_buf()) {
                Ok::<(Seq<u8>, int), LexerError>((name, j)) => {
                    &&& r == Ok::<TokenKind, LexerError>(TokenKind::StartTagName)
                    &&& final(self).spec_buf() == name
                    &&& final(self).spec_pos() == j
                    &&& final(self).spec_state() == LexerState::FirstAttribute
                },
                Err(e) => r == Err::<TokenKind, LexerError>(e),
            },
    {
        loop
            invariant
                self.wf(),
                self.spec_input() == old(self).spec_input(),
                self.spec_stash() == old(self).spec_stash(),
                self.spec_state() == old(self).spec_state(),
                self.spec_kind() == old(self).spec_kind(),
                scan_name(self.spec_input(), self.spec_pos(), self.spec_buf())
                    == scan_name(old(self).spec_input(), old(self).spec_pos(), old(self).spec_buf()),
            decreases self.spec_input().len() - self.spec_pos(),
        {
            match self.peek_byte() {
                None => return Err(LexerError::EOF),
                Some(c) => {
                    if byte_is_ws(c) || c == 0x2f || c == 0x3e {
                        self.state = LexerState::FirstAttribute;
                        return Ok(TokenKind::StartTagName);
                    } else if c == 0x3a {
                        let _ = self.take_byte();
                        self.buf.clear();
                    } else {
                        let _ = self.take_byte();
                        self.buf.push(c);
                    }
                },
            }
        }
    }

    /// Consume bytes through the first occurrence of `b`.
    fn skip_to_byte(&mut self, b: u8) -> (r: Result<(), LexerError>)
        requires
            old(self).wf(),
        ensures
            final(self).wf(),
            final(self).spec_input() == old(self).spec_input(),
            final(self).spec_buf() == old(self).spec_buf(),
            final(self).spec_stash() == old(self).spec_stash(),
            final(self).spec_state() == old(self).spec_state(),
            final(self).spec_kind() == old(self).spec_kind(),
            match find_byte(old(self).spec_input(), old(self).spec_pos(), b) {
                Some(j) => {
                    &&& r == Ok::<(), LexerError>(())
                    &&& final(self).spec_pos() == j + 1
                    &&& final(self).spec_pos() > old(self).spec_pos()
                },
                None => r == Err::<(), LexerError>(LexerError::EOF),
            },
    {
        loop
            invariant
                self.wf(),
                self.spec_input() == old(self).spec_input(),
                self.spec_buf() == old(self).spec_buf(),
                self.spec_stash() == old(self).spec_stash(),
                self.spec_state() == old(self).spec_state(),
                self.spec_kind() == old(self).spec_kind(),
                old(self).spec_pos() <= self.spec_pos(),
                find_byte(self.spec_input(), self.spec_pos(), b)
                    == find_byte(old(self).spec_input(), old(self).spec_pos(), b),
            decreases self.spec_input().len() - self.spec_pos(),
        {
            match self.take_byte() {
                None => return Err(LexerError::EOF),
                Some(c) => {
                    if c == b {
                        return Ok(());
                    }
                },
            }
        }
    }

    /// An attribute value: skip to the opening quote, then fill the buffer
    /// up to the matching quote.
    fn read_attr_value(&mut self) -> (r: Result<(), LexerError>)
        requires
            old(self).wf(),
            old(self).spec_buf() == Seq::<u8>::empty(),
        ensures
            final(self).wf(),
            final(self).spec_input() == old(self).spec_input(),
            final(self).spec_stash() == old(self).spec_stash(),
            final(self).spec_state() == old(self).spec_state(),
            final(self).spec_kind() == old(self).spec_kind(),
            match scan_attr_value(old(self).spec_input(), old(self).spec_pos()) {
                Ok::<(Seq<u8>, int), LexerError>((v, j)) => {
                    &&& r == Ok::<(), LexerError>(())
                    &&& final(self).spec_buf() == v
                    &&& final(self).spec_pos() == j
                    &&& final(self).spec_pos() > old(self).spec_pos()
                },
                Err(e) => r == Err::<(), LexerError>(e),
            },
    {
        let mut quot: u8 = 0;
        loop
            invariant_except_break
                find_quote(self.spec_input(), self.spec_pos())
                    == find_quote(old(self).spec_input(), old(self).spec_pos()),
            invariant
                self.wf(),
                self.spec_input() == old(self).spec_input(),
                self.spec_buf() == old(self).spec_buf(),
                self.spec_stash() == old(self).spec_stash(),
                self.spec_state() == old(self).spec_state(),
                self.spec_kind() == old(self).spec_kind(),
                old(self).spec_pos() <= self.spec_pos(),
            ensures
                self.wf(),
                self.spec_input() == old(self).spec_input(),
                self.spec_buf() == old(self).spec_buf(),
                self.spec_stash() == old(self).spec_stash(),
                self.spec_state() == old(self).spec_state(),
                self.spec_kind() == old(self).spec_kind(),
                0 <= self.spec_pos() - 1 < self.spec_input().len(),
                old(self).spec_pos() <= self.spec_pos(),
                quot == self.spec_input()[self.spec_pos() - 1],
                find_quote(old(self).spec_input(), old(self).spec_pos())
                    == Some(self.spec_pos() - 1),
            decreases self.spec_input().len() - self.spec_pos(),
        {
            match self.take_byte() {
                None => return Err(LexerError::EOF),
                Some(c) => {
                    if c == 0x27 || c == 0x22 {
                        quot = c;
                        break;
                    }
                },
            }
        }
        let ghost q = (self.spec_pos() - 1) as int;
        loop
            invariant
                self.wf(),
                self.spec_input() == old(self).spec_input(),
                self.spec_stash() == old(self).spec_stash(),
                self.spec_state() == old(self).spec_state(),
                self.spec_kind() == old(self).spec_kind(),
                0 <= q < self.spec_input().len(),
                old(self).spec_pos() <= q + 1,
                q + 1 <= self.spec_pos() <= self.spec_input().len(),
                quot == self.spec_input()[q],
                find_quote(old(self).spec_input(), old(self).spec_pos()) == Some(q),
                self.spec_buf() == self.spec_input().subrange(q + 1, self.spec_pos()),
                find_byte(self.spec_input(), self.spec_pos(), quot)
                    == find_byte(self.spec_input(), q + 1, quot),
            decreases self.spec_input().len() - self.spec_pos(),
        {
            match self.take_byte() {
                None => return Err(LexerError::EOF),
                Some(c) => {
                    if c == quot {
                        proof {
                            assert(find_byte(self.spec_input(), self.spec_pos() - 1, quot)
                                == Some(self.spec_pos() - 1));
                        }
                        return Ok(());
                    } else {
                        self.buf.push(c);
                        proof {
                            assert(self.spec_buf()
                                =~= self.spec_input().subrange(q + 1, self.spec_pos()));
                        }
                    }
                },
            }
        }
    }
}

} // verus!

verus! {

// ---------------------------------------------------------------------------
// Attribute names
// ---------------------------------------------------------------------------

/// What one step of attribute scanning produces.
pub enum AttrTok {
    /// `/>`: the element closes with no further attributes.
    AEmptyEnd,
    /// `>`: the start tag closes; content follows.
    ATagClose,
    /// An attribute name, prefix-stripped, with its `=` consumed.
    AName(Seq<u8>),
}

/// The reserved default-namespace attribute name `xmlns`.
pub open spec fn xmlns_name() -> Seq<u8> {
    seq![0x78u8, 0x6du8, 0x6cu8, 0x6eu8, 0x73u8]
}

/// Attribute-position scanning: leading whitespace is skipped, `/>` and `>`
/// close the tag, anything else begins an attribute name.
pub open spec fn scan_attrs(s: Seq<u8>, i: int) -> Result<(AttrTok, int), LexerError>
    decreases s.len() - i, 2int,
{
    if i < 0 || i >= s.len() {
        Err(LexerError::EOF)
    } else if s[i] == 0x2fu8 {
        if i + 1 >= s.len() {
            Err(LexerError::EOF)
        } else if s[i + 1] == 0x3eu8 {
            Ok((AttrTok::AEmptyEnd, i + 2))
        } else {
            Err(LexerError::ExpectedLT)
        }
    } else if s[i] == 0x3eu8 {
        Ok((AttrTok::ATagClose, i + 1))
    } else if is_ws_byte(s[i]) {
        scan_attrs(s, i + 1)
    } else {
        scan_attr_name(s, i, Seq::empty())
    }
}

/// An attribute name: accumulates bytes up to `=` or whitespace, resetting
/// at each colon. A `xmlns:prefix` declaration has its value scanned and
/// discarded, and scanning resumes at the next attribute.
pub open spec fn scan_attr_name(s: Seq<u8>, i: int, acc: Seq<u8>) -> Result<(AttrTok, int), LexerError>
    decreases s.len() - i, 1int,
{
    if i < 0 || i >= s.len() {
        Err(LexerError::EOF)
    } else if s[i] == 0x3du8 {
        finish_attr_name(s, i + 1, acc)
    } else if is_ws_byte(s[i]) {
        scan_attr_eq(s, i + 1, acc)
    } else if s[i] == 0x3au8 {
        if acc == xmlns_name() {
            match find_byte(s, i + 1, 0x3du8) {
                None => Err(LexerError::EOF),
                Some(j) => match scan_attr_value(s, j + 1) {
                    Err(e) => Err(e),
                    Ok((_, m)) => if i < m && m <= s.len() {
                        scan_attrs(s, m)
                    } else {
                        Err(LexerError::EOF)
                    },
                },
            }
        } else {
            scan_attr_name(s, i + 1, Seq::empty())
        }
    } else {
        scan_attr_name(s, i + 1, acc.push(s[i]))
    }
}

/// After whitespace inside an attribute name: only more whitespace or the
/// `=` sign may follow.
pub open spec fn scan_attr_eq(s: Seq<u8>, i: int, acc: Seq<u8>) -> Result<(AttrTok, int), LexerError>
    decreases s.len() - i, 1int,
{
    if i < 0 || i >= s.len() {
        Err(LexerError::EOF)
    } else if s[i] == 0x3du8 {
        finish_attr_name(s, i + 1, acc)
    } else if is_ws_byte(s[i]) {
        scan_attr_eq(s, i + 1, acc)
    } else {
        Err(LexerError::ExpectedEq)
    }
}

/// A completed attribute name, at the position after `=`. A plain `xmlns`
/// has its value scanned and discarded; any other name is surfaced.
pub open spec fn finish_attr_name(s: Seq<u8>, i: int, acc: Seq<u8>) -> Result<(AttrTok, int), LexerError>
    decreases s.len() - i, 3int,
{
    if acc == xmlns_name() {
        match scan_attr_value(s, i) {
            Err(e) => Err(e),
            Ok((_, m)) => if i < m && m <= s.len() {
                scan_attrs(s, m)
            } else {
                Err(LexerError::EOF)
            },
        }
    } else {
        Ok((AttrTok::AName(acc), i))
    }
}

/// Exec phase of attribute-name scanning, mirroring the spec scanners.
enum AttrPhase {
    Skip,
    Name,
    Eq,
}

impl XmlIterator {
    /// The accumulation buffer holds exactly `xmlns`.
    fn buf_is_xmlns(&self) -> (r: bool)
        ensures
            r == (self.spec_buf() == xmlns_name()),
    {
        let r = self.buf.len() == 5 && self.buf[0] == 0x78 && self.buf[1] == 0x6d
            && self.buf[2] == 0x6c && self.buf[3] == 0x6e && self.buf[4] == 0x73;
        proof {
            assert(xmlns_name().len() == 5);
            assert(xmlns_name()[0] == 0x78u8);
            assert(xmlns_name()[1] == 0x6du8);
            assert(xmlns_name()[2] == 0x6cu8);
            assert(xmlns_name()[3] == 0x6eu8);
            assert(xmlns_name()[4] == 0x73u8);
            if r {
                assert(self.spec_buf() =~= xmlns_name());
            }
        }
        r
    }

    /// One attribute-position token: `/>` (stashing the remembered tag
    /// name into the buffer), `>`, or an attribute name. A `xmlns`
    /// declaration is consumed and skipped in place.
    fn decode_attr_name(&mut self) -> (r: Result<TokenKind, LexerError>)
        requires
            old(self).wf(),
            old(self).spec_buf() == Seq::<u8>::empty(),
        ensures
            final(self).wf(),
            final(self).spec_input() == old(self).spec_input(),
            final(self).spec_kind() == old(self).spec_kind(),
            match scan_attrs(old(self).spec_input(), old(self).spec_pos()) {
                Ok::<(AttrTok, int), LexerError>((tok, j)) => match tok {
                    AttrTok::AEmptyEnd => {
                        &&& r == Ok::<TokenKind, LexerError>(TokenKind::EmptyElementEnd)
                        &&& final(self).spec_pos() == j
                        &&& final(self).spec_buf() == old(self).spec_stash()
                        &&& final(self).spec_stash() == Seq::<u8>::empty()
                        &&& final(self).spec_state() == LexerState::Start
                    },
                    AttrTok::ATagClose => {
                        &&& r == Ok::<TokenKind, LexerError>(TokenKind::StartTagClose)
                        &&& final(self).spec_pos() == j
                        &&& final(self).spec_buf() == Seq::<u8>::empty()
                        &&& final(self).spec_stash() == old(self).spec_stash()
                        &&& final(self).spec_state() == LexerState::Start
                    },
                    AttrTok::AName(nm) => {
                        &&& r == Ok::<TokenKind, LexerError>(TokenKind::AttributeName)
                        &&& final(self).spec_pos() == j
                        &&& final(self).spec_buf() == nm
                        &&& final(self).spec_stash() == old(self).spec_stash()
                        &&& final(self).spec_state() == LexerState::AttributeValue
                    },
                },
                Err(e) => r == Err::<TokenKind, LexerError>(e),
            },
    {
        let mut phase = AttrPhase::Skip;
        loop
            invariant
                self.wf(),
                self.spec_input() == old(self).spec_input(),
                self.spec_kind() == old(self).spec_kind(),
                self.spec_state() == old(self).spec_state(),
                self.spec_stash() == old(self).spec_stash(),
                match phase {
                    AttrPhase::Skip => self.spec_buf() == Seq::<u8>::empty()
                        && scan_attrs(self.spec_input(), self.spec_pos())
                            == scan_attrs(old(self).spec_input(), old(self).spec_pos()),
                    AttrPhase::Name => scan_attr_name(self.spec_input(), self.spec_pos(), self.spec_buf())
                        == scan_attrs(old(self).spec_input(), old(self).spec_pos()),
                    AttrPhase::Eq => scan_attr_eq(self.spec_input(), self.spec_pos(), self.spec_buf())
                        == scan_attrs(old(self).spec_input(), old(self).spec_pos()),
                },
            decreases self.spec_input().len() - self.spec_pos(),
        {
            let ghost s = self.spec_input();
            let ghost p = self.spec_pos();
            let ghost b = self.spec_buf();
            let ghost target = scan_attrs(old(self).spec_input(), old(self).spec_pos());
            let c = match self.take_byte() {
                None => return Err(LexerError::EOF),
                Some(c) => c,
            };
            match phase {
                AttrPhase::Skip => {
                    if c == 0x2f {
                        match self.take_byte() {
                            None => return Err(LexerError::EOF),
                            Some(c2) => {
                                if c2 == 0x3e {
                                    core::mem::swap(&mut self.buf, &mut self.stash);
                                    self.state = LexerState::Start;
                                    return Ok(TokenKind::EmptyElementEnd);
                                } else {
                                    return Err(LexerError::ExpectedLT);
                                }
                            },
                        }
                    } else if c == 0x3e {
                        self.state = LexerState::Start;
                        return Ok(TokenKind::StartTagClose);
                    } else if byte_is_ws(c) {
                        // skip leading whitespace
                    } else if c == 0x3d {
                        // an empty name followed by `=`: surfaced as-is
                        proof {
                            assert(target == scan_attr_name(s, p, Seq::<u8>::empty()));
                            assert(target == finish_attr_name(s, p + 1, Seq::<u8>::empty()));
                            assert(xmlns_name().len() == 5);
                            assert(target == Ok::<(AttrTok, int), LexerError>((
                                AttrTok::AName(Seq::<u8>::empty()),
                                p + 1,
                            )));
                        }
                        self.state = LexerState::AttributeValue;
                        return Ok(TokenKind::AttributeName);
                    } else if c == 0x3a {
                        proof {
                            assert(target == scan_attr_name(s, p, Seq::<u8>::empty()));
                            assert(xmlns_name().len() == 5);
                            assert(target == scan_attr_name(s, p + 1, Seq::<u8>::empty()));
                        }
                        phase = AttrPhase::Name;
                    } else {
                        proof {
                            assert(target == scan_attr_name(s, p, Seq::<u8>::empty()));
                            assert(target == scan_attr_name(s, p + 1, Seq::<u8>::empty().push(c)));
                        }
                        self.buf.push(c);
                        proof {
                            assert(self.spec_buf() =~= Seq::<u8>::empty().push(c));
                        }
                        phase = AttrPhase::Name;
                    }
                },
                AttrPhase::Name => {
                    if c == 0x3d {
                        proof {
                            assert(target == finish_attr_name(s, p + 1, b));
                        }
                        if self.buf_is_xmlns() {
                            self.buf.clear();
                            match self.read_attr_value() {
                                Ok(()) => {},
                                Err(e) => return Err(e),
                            }
                            proof {
                                assert(b == xmlns_name());
                                assert(scan_attr_value(s, p + 1)
                                    == Ok::<(Seq<u8>, int), LexerError>((
                                    self.spec_buf(),
                                    self.spec_pos(),
                                )));
                                assert(p + 1 < self.spec_pos() <= s.len());
                                assert(finish_attr_name(s, p + 1, b)
                                    == scan_attrs(s, self.spec_pos())) by {
                                    reveal_with_fuel(finish_attr_name, 2);
                                }
                                assert(target == scan_attrs(s, self.spec_pos()));
                            }
                            self.buf.clear();
                            phase = AttrPhase::Skip;
                        } else {
                            self.state = LexerState::AttributeValue;
                            return Ok(TokenKind::AttributeName);
                        }
                    } else if byte_is_ws(c) {
                        proof {
                            assert(target == scan_attr_eq(s, p + 1, b));
                        }
                        phase = AttrPhase::Eq;
                    } else if c == 0x3a {
                        if self.buf_is_xmlns() {
                            self.buf.clear();
                            match self.skip_to_byte(0x3d) {
                                Ok(()) => {},
                                Err(e) => return Err(e),
                            }
                            let ghost jpos = self.spec_pos();
                            match self.read_attr_value() {
                                Ok(()) => {},
                                Err(e) => return Err(e),
                            }
                            proof {
                                assert(b == xmlns_name());
                                assert(find_byte(s, p + 1, 0x3d) == Some(jpos - 1));
                                assert(scan_attr_value(s, jpos)
                                    == Ok::<(Seq<u8>, int), LexerError>((
                                    self.spec_buf(),
                                    self.spec_pos(),
                                )));
                                assert(p < self.spec_pos() <= s.len());
                                assert(scan_attr_name(s, p, b)
                                    == scan_attrs(s, self.spec_pos())) by {
                                    reveal_with_fuel(scan_attr_name, 2);
                                }
                                assert(target == scan_attrs(s, self.spec_pos()));
                            }
                            self.buf.clear();
                            phase = AttrPhase::Skip;
                        } else {
                            proof {
                                assert(target == scan_attr_name(s, p + 1, Seq::<u8>::empty()));
                            }
                            self.buf.clear();
                        }
                    } else {
                        proof {
                            assert(target == scan_attr_name(s, p + 1, b.push(c)));
                        }
                        self.buf.push(c);
                    }
                },
                AttrPhase::Eq => {
                    if c == 0x3d {
                        proof {
                            assert(target == finish_attr_name(s, p + 1, b));
                        }
                        if self.buf_is_xmlns() {
                            self.buf.clear();
                            match self.read_attr_value() {
                                Ok(()) => {},
                                Err(e) => return Err(e),
                            }
                            proof {
                                assert(b == xmlns_name());
                                assert(scan_attr_value(s, p + 1)
                                    == Ok::<(Seq<u8>, int), LexerError>((
                                    self.spec_buf(),
                                    self.spec_pos(),
                                )));
                                assert(p + 1 < self.spec_pos() <= s.len());
                                assert(finish_attr_name(s, p + 1, b)
                                    == scan_attrs(s, self.spec_pos())) by {
                                    reveal_with_fuel(finish_attr_name, 2);
                                }
                                assert(target == scan_attrs(s, self.spec_pos()));
                            }
                            self.buf.clear();
                            phase = AttrPhase::Skip;
                        } else {
                            self.state = LexerState::AttributeValue;
                            return Ok(TokenKind::AttributeName);
                        }
                    } else if byte_is_ws(c) {
                        // keep searching for `=`
                    } else {
                        return Err(LexerError::ExpectedEq);
                    }
                },
            }
        }
    }

    /// An attribute value token: the buffer receives the quoted bytes.
    fn decode_attr_val(&mut self) -> (r: Result<TokenKind, LexerError>)
        requires
            old(self).wf(),
            old(self).spec_buf() == Seq::<u8>::empty(),
        ensures
            final(self).wf(),
            final(self).spec_input() == old(self).spec_input(),
            final(self).spec_stash() == old(self).spec_stash(),
            final(self).spec_kind() == old(self).spec_kind(),
            match scan_attr_value(old(self).spec_input(), old(self).spec_pos()) {
                Ok::<(Seq<u8>, int), LexerError>((v, j)) => {
                    &&& r == Ok::<TokenKind, LexerError>(TokenKind::AttributeValue)
                    &&& final(self).spec_buf() == v
                    &&& final(self).spec_pos() == j
                    &&& final(self).spec_state() == LexerState::AttributeName
                },
                Err(e) => r == Err::<TokenKind, LexerError>(e),
            },
    {
        match self.read_attr_value() {
            Ok(()) => {
                self.state = LexerState::AttributeName;
                Ok(TokenKind::AttributeValue)
            },
            Err(e) => Err(e),
        }
    }
}

} // verus!

verus! {

// ---------------------------------------------------------------------------
// Text runs and the top-level token step
// ---------------------------------------------------------------------------

/// What scanning one token from text position yields.
pub enum TextStep {
    /// A complete token: its kind, its payload, the position after it, and
    /// the lexer state that follows.
    Tok { kind: TokenKind, buf: Seq<u8>, end: int, st: LexerState },
    /// A lexical failure.
    Fail { err: LexerError },
}

/// Scanning in text position: plain bytes accumulate, `&` splices a decoded
/// entity, `<!` markup and `<?` declarations are handled in place, `</` ends
/// the text run, and `<` with a name starts a tag, but only over all-white
/// accumulated text; anything else is mixed content and refused.
pub open spec fn scan_text(s: Seq<u8>, i: int, acc: Seq<u8>) -> TextStep
    decreases s.len() - i,
{
    if i < 0 {
        TextStep::Fail { err: LexerError::EOF }
    } else if i >= s.len() {
        TextStep::Tok { kind: TokenKind::EndOfFile, buf: acc, end: i, st: LexerState::Start }
    } else if s[i] == 0x3cu8 {
        if i + 1 >= s.len() {
            TextStep::Fail { err: LexerError::EOF }
        } else if s[i + 1] == 0x2fu8 {
            TextStep::Tok { kind: TokenKind::Text, buf: acc, end: i + 2, st: LexerState::Tag }
        } else if s[i + 1] == 0x21u8 {
            match scan_markup(s, i + 2) {
                Ok((app, j)) => if i < j && j <= s.len() {
                    scan_text(s, j, acc + app)
                } else {
                    TextStep::Fail { err: LexerError::EOF }
                },
                Err(e) => TextStep::Fail { err: e },
            }
        } else if s[i + 1] == 0x3fu8 {
            match scan_declaration(s, i + 2) {
                Ok(j) => if i < j && j <= s.len() {
                    scan_text(s, j, acc)
                } else {
                    TextStep::Fail { err: LexerError::EOF }
                },
                Err(e) => TextStep::Fail { err: e },
            }
        } else if all_ws(acc) {
            match scan_name(s, i + 1, Seq::empty()) {
                Ok((name, j)) => TextStep::Tok {
                    kind: TokenKind::StartTagName,
                    buf: name,
                    end: j,
                    st: LexerState::FirstAttribute,
                },
                Err(e) => TextStep::Fail { err: e },
            }
        } else {
            TextStep::Fail { err: LexerError::MixedElementsAndText }
        }
    } else if s[i] == 0x26u8 {
        match scan_entity(s, i + 1) {
            Ok((bytes, j)) => if i < j && j <= s.len() {
                scan_text(s, j, acc + bytes)
            } else {
                TextStep::Fail { err: LexerError::EOF }
            },
            Err(e) => TextStep::Fail { err: e },
        }
    } else {
        scan_text(s, i + 1, acc.push(s[i]))
    }
}

impl XmlIterator {
    /// One token scanned from text position.
    fn decode_normal(&mut self) -> (r: Result<TokenKind, LexerError>)
        requires
            old(self).wf(),
            old(self).spec_state() == LexerState::Start,
        ensures
            final(self).wf(),
            final(self).spec_input() == old(self).spec_input(),
            final(self).spec_stash() == old(self).spec_stash(),
            final(self).spec_kind() == old(self).spec_kind(),
            match scan_text(old(self).spec_input(), old(self).spec_pos(), old(self).spec_buf()) {
                TextStep::Tok { kind, buf, end, st } => {
                    &&& r == Ok::<TokenKind, LexerError>(kind)
                    &&& final(self).spec_buf() == buf
                    &&& final(self).spec_pos() == end
                    &&& final(self).spec_state() == st
                },
                TextStep::Fail { err } => r == Err::<TokenKind, LexerError>(err),
            },
    {
        loop
            invariant
                self.wf(),
                self.spec_input() == old(self).spec_input(),
                self.spec_stash() == old(self).spec_stash(),
                self.spec_kind() == old(self).spec_kind(),
                self.spec_state() == LexerState::Start,
                scan_text(self.spec_input(), self.spec_pos(), self.spec_buf())
                    == scan_text(old(self).spec_input(), old(self).spec_pos(), old(self).spec_buf()),
            decreases self.spec_input().len() - self.spec_pos(),
        {
            let ghost s = self.spec_input();
            let ghost i = self.spec_pos();
            let ghost acc = self.spec_buf();
            let c = match self.peek_byte() {
                None => return Ok(TokenKind::EndOfFile),
                Some(c) => c,
            };
            if c == 0x3c {
                let _ = self.take_byte();
                let c2 = match self.peek_byte() {
                    None => return Err(LexerError::EOF),
                    Some(x) => x,
                };
                if c2 == 0x2f {
                    let _ = self.take_byte();
                    self.state = LexerState::Tag;
                    return Ok(TokenKind::Text);
                } else if c2 == 0x21 {
                    let _ = self.take_byte();
                    match self.decode_comment_or_cdata() {
                        Ok(()) => {
                            proof {
                                assert(scan_text(s, i, acc)
                                    == scan_text(s, self.spec_pos(), self.spec_buf()));
                            }
                        },
                        Err(e) => return Err(e),
                    }
                } else if c2 == 0x3f {
                    let _ = self.take_byte();
                    match self.decode_declaration() {
                        Ok(()) => {
                            proof {
                                assert(scan_text(s, i, acc)
                                    == scan_text(s, self.spec_pos(), self.spec_buf()));
                            }
                        },
                        Err(e) => return Err(e),
                    }
                } else {
                    if bytes_are_ws(&self.buf) {
                        self.buf.clear();
                        return self.decode_tag_name();
                    } else {
                        return Err(LexerError::MixedElementsAndText);
                    }
                }
            } else if c == 0x26 {
                let _ = self.take_byte();
                match self.decode_escaped() {
                    Ok(()) => {
                        proof {
                            assert(scan_text(s, i, acc)
                                == scan_text(s, self.spec_pos(), self.spec_buf()));
                        }
                    },
                    Err(e) => return Err(e),
                }
            } else {
                let _ = self.take_byte();
                self.buf.push(c);
                proof {
                    assert(scan_text(s, i, acc)
                        == scan_text(s, self.spec_pos(), self.spec_buf()));
                }
            }
        }
    }
}

} // verus!

verus! {

/// What one whole token step yields: the new token with its payload, the
/// stash and lexer state after it, and the cursor position past it.
pub enum LexOutcome {
    Next { kind: TokenKind, buf: Seq<u8>, stash: Seq<u8>, end: int, st: LexerState },
    Failed { err: LexerError },
}

/// One token, scanned from position `i` in state `st`. `stash1` is the
/// stash after the empty-element bookkeeping: entering attribute scanning
/// moves the just-read tag name into the stash so that `/>` can surface it.
pub open spec fn lex_step(s: Seq<u8>, i: int, st: LexerState, stash1: Seq<u8>) -> LexOutcome {
    match st {
        LexerState::Start => match scan_text(s, i, Seq::empty()) {
            TextStep::Tok { kind, buf, end, st } => LexOutcome::Next { kind, buf, stash: stash1, end, st },
            TextStep::Fail { err } => LexOutcome::Failed { err },
        },
        LexerState::Tag => match scan_end_name(s, i, Seq::empty()) {
            Ok((n, j)) => LexOutcome::Next {
                kind: TokenKind::EndTagName,
                buf: n,
                stash: stash1,
                end: j,
                st: LexerState::Start,
            },
            Err(e) => LexOutcome::Failed { err: e },
        },
        LexerState::FirstAttribute | LexerState::AttributeName => match scan_attrs(s, i) {
            Ok((AttrTok::AEmptyEnd, j)) => LexOutcome::Next {
                kind: TokenKind::EmptyElementEnd,
                buf: stash1,
                stash: Seq::empty(),
                end: j,
                st: LexerState::Start,
            },
            Ok((AttrTok::ATagClose, j)) => LexOutcome::Next {
                kind: TokenKind::StartTagClose,
                buf: Seq::empty(),
                stash: stash1,
                end: j,
                st: LexerState::Start,
            },
            Ok((AttrTok::AName(nm), j)) => LexOutcome::Next {
                kind: TokenKind::AttributeName,
                buf: nm,
                stash: stash1,
                end: j,
                st: LexerState::AttributeValue,
            },
            Err(e) => LexOutcome::Failed { err: e },
        },
        LexerState::AttributeValue => match scan_attr_value(s, i) {
            Ok((v, j)) => LexOutcome::Next {
                kind: TokenKind::AttributeValue,
                buf: v,
                stash: stash1,
                end: j,
                st: LexerState::AttributeName,
            },
            Err(e) => LexOutcome::Failed { err: e },
        },
    }
}

/// The stash as `lex_step` sees it: entering attribute scanning swaps the
/// buffer (the tag name) into the stash.
pub open spec fn stash_for_step(st: LexerState, buf: Seq<u8>, stash: Seq<u8>) -> Seq<u8> {
    if st == LexerState::FirstAttribute {
        buf
    } else {
        stash
    }
}

/// A token value agrees with a kind and payload.
pub open spec fn lex_matches(l: Lexical, kind: TokenKind, payload: Seq<u8>) -> bool {
    match kind {
        TokenKind::StartTagClose => l == Lexical::StartTagClose,
        TokenKind::Text => l matches Lexical::Text(p) && p@ == payload,
        TokenKind::StartTagName => l matches Lexical::StartTagName(p) && p@ == payload,
        TokenKind::AttributeName => l matches Lexical::AttributeName(p) && p@ == payload,
        TokenKind::AttributeValue => l matches Lexical::AttributeValue(p) && p@ == payload,
        TokenKind::EmptyElementEnd => l matches Lexical::EmptyElementEnd(p) && p@ == payload,
        TokenKind::EndTagName => l matches Lexical::EndTagName(p) && p@ == payload,
        TokenKind::StartOfFile => l == Lexical::StartOfFile,
        TokenKind::EndOfFile => l == Lexical::EndOfFile,
    }
}

/// An owned copy of a byte vector.
fn copy_bytes(v: &Vec<u8>) -> (r: Vec<u8>)
    ensures
        r@ == v@,
{
    let mut r: Vec<u8> = Vec::new();
    let mut i: usize = 0;
    while i < v.len()
        invariant
            0 <= i <= v@.len(),
            r@ == v@.subrange(0, i as int),
        decreases v@.len() - i,
    {
        r.push(v[i]);
        proof {
            assert(r@ =~= v@.subrange(0, i + 1));
        }
        i = i + 1;
    }
    proof {
        assert(v@.subrange(0, v@.len() as int) =~= v@);
    }
    r
}

impl XmlIterator {
    /// A structural error at the current position, naming what was
    /// expected.
    pub fn expected(&self, reason: Expectation) -> (r: Error)
        ensures
            r == Error::SyntaxError(
                ErrorCode::Expected(reason),
                self.spec_line() as usize,
                self.spec_col() as usize,
            ),
    {
        self.error(ErrorCode::Expected(reason))
    }

    /// An error of the given code at the current position.
    pub fn error(&self, reason: ErrorCode) -> (r: Error)
        ensures
            r == Error::SyntaxError(reason, self.spec_line() as usize, self.spec_col() as usize),
    {
        Error::SyntaxError(reason, self.line, self.col)
    }

    /// A lexical error at the current position.
    fn lexer_error(&self, reason: LexerError) -> (r: Error)
        ensures
            r == Error::SyntaxError(
                ErrorCode::LexingError(reason),
                self.spec_line() as usize,
                self.spec_col() as usize,
            ),
    {
        self.error(ErrorCode::LexingError(reason))
    }

    /// Swap the accumulation buffer with the stash: a consumer that must
    /// keep a payload across the next token snapshots it here.
    pub fn stash(&mut self)
        requires
            old(self).wf(),
        ensures
            final(self).wf(),
            final(self).spec_input() == old(self).spec_input(),
            final(self).spec_pos() == old(self).spec_pos(),
            final(self).spec_state() == old(self).spec_state(),
            final(self).spec_kind() == old(self).spec_kind(),
            final(self).spec_buf() == old(self).spec_stash(),
            final(self).spec_stash() == old(self).spec_buf(),
    {
        core::mem::swap(&mut self.buf, &mut self.stash);
    }

    /// The stash's current contents.
    pub fn stash_view(&self) -> (r: &Vec<u8>)
        ensures
            r@ == self.spec_stash(),
    {
        &self.stash
    }

    /// The current token's kind.
    pub fn kind(&self) -> (k: TokenKind)
        ensures
            k == self.spec_kind(),
    {
        self.ch
    }

    /// The current token's payload bytes.
    pub fn token_bytes(&self) -> (r: &Vec<u8>)
        ensures
            r@ == self.spec_buf(),
    {
        &self.buf
    }

    /// The current token, with an owned copy of its payload.
    pub fn ch(&self) -> (r: Result<Lexical, Error>)
        ensures
            r matches Ok(l) && lex_matches(l, self.spec_kind(), self.spec_buf()),
    {
        Ok(
            match self.ch {
                TokenKind::StartTagClose => Lexical::StartTagClose,
                TokenKind::Text => Lexical::Text(copy_bytes(&self.buf)),
                TokenKind::StartTagName => Lexical::StartTagName(copy_bytes(&self.buf)),
                TokenKind::AttributeName => Lexical::AttributeName(copy_bytes(&self.buf)),
                TokenKind::AttributeValue => Lexical::AttributeValue(copy_bytes(&self.buf)),
                TokenKind::EmptyElementEnd => Lexical::EmptyElementEnd(copy_bytes(&self.buf)),
                TokenKind::EndTagName => Lexical::EndTagName(copy_bytes(&self.buf)),
                TokenKind::StartOfFile => Lexical::StartOfFile,
                TokenKind::EndOfFile => Lexical::EndOfFile,
            },
        )
    }

    /// One token step, in whatever state the lexer is in.
    fn decode(&mut self) -> (r: Result<TokenKind, LexerError>)
        requires
            old(self).wf(),
        ensures
            final(self).wf(),
            final(self).spec_input() == old(self).spec_input(),
            final(self).spec_kind() == old(self).spec_kind(),
            match lex_step(
                old(self).spec_input(),
                old(self).spec_pos(),
                old(self).spec_state(),
                stash_for_step(old(self).spec_state(), old(self).spec_buf(), old(self).spec_stash()),
            ) {
                LexOutcome::Next { kind, buf, stash, end, st } => {
                    &&& r == Ok::<TokenKind, LexerError>(kind)
                    &&& final(self).spec_buf() == buf
                    &&& final(self).spec_stash() == stash
                    &&& final(self).spec_pos() == end
                    &&& final(self).spec_state() == st
                },
                LexOutcome::Failed { err } => r == Err::<TokenKind, LexerError>(err),
            },
    {
        if let LexerState::FirstAttribute = self.state {
            // empty elements have no closing tag: remember the name now
            core::mem::swap(&mut self.buf, &mut self.stash);
        }
        self.buf.clear();
        match self.state {
            LexerState::Start => self.decode_normal(),
            LexerState::Tag => self.decode_tag(),
            LexerState::AttributeName | LexerState::FirstAttribute => self.decode_attr_name(),
            LexerState::AttributeValue => self.decode_attr_val(),
        }
    }

    /// Advance to the next token and return it. Must not be called again
    /// once `EndOfFile` has been returned.
    pub fn bump(&mut self) -> (r: Result<Lexical, Error>)
        requires
            old(self).wf(),
            old(self).spec_kind() != TokenKind::EndOfFile,
        ensures
            final(self).wf(),
            final(self).spec_input() == old(self).spec_input(),
            match lex_step(
                old(self).spec_input(),
                old(self).spec_pos(),
                old(self).spec_state(),
                stash_for_step(old(self).spec_state(), old(self).spec_buf(), old(self).spec_stash()),
            ) {
                LexOutcome::Next { kind, buf, stash, end, st } => {
                    &&& r matches Ok(l) && lex_matches(l, kind, buf)
                    &&& final(self).spec_kind() == kind
                    &&& final(self).spec_buf() == buf
                    &&& final(self).spec_stash() == stash
                    &&& final(self).spec_pos() == end
                    &&& final(self).spec_state() == st
                },
                LexOutcome::Failed { err } => r == Err::<Lexical, Error>(Error::SyntaxError(
                    ErrorCode::LexingError(err),
                    final(self).spec_line() as usize,
                    final(self).spec_col() as usize,
                )),
            },
    {
        let tok = match self.decode() {
            Ok(t) => t,
            Err(e) => {
                let err = self.lexer_error(e);
                return Err(err);
            },
        };
        self.ch = tok;
        self.ch()
    }
}

} // verus!

verus! {

// ---------------------------------------------------------------------------
// Progress: every token except end-of-file consumes at least one byte
// ---------------------------------------------------------------------------

proof fn lemma_find_byte_bounds(s: Seq<u8>, i: int, b: u8)
    requires
        0 <= i,
    ensures
        match find_byte(s, i, b) {
            Some(j) => i <= j < s.len(),
            None => true,
        },
    decreases s.len() - i,
{
    if i < s.len() && s[i] != b {
        lemma_find_byte_bounds(s, i + 1, b);
    }
}

proof fn lemma_find_quote_bounds(s: Seq<u8>, i: int)
    requires
        0 <= i,
    ensures
        match find_quote(s, i) {
            Some(j) => i <= j < s.len(),
            None => true,
        },
    decreases s.len() - i,
{
    if i < s.len() && !(s[i] == 0x27u8 || s[i] == 0x22u8) {
        lemma_find_quote_bounds(s, i + 1);
    }
}

proof fn lemma_scan_attr_value_bounds(s: Seq<u8>, i: int)
    requires
        0 <= i,
    ensures
        match scan_attr_value(s, i) {
            Ok((_, j)) => i < j <= s.len(),
            Err(_) => true,
        },
{
    lemma_find_quote_bounds(s, i);
    if let Some(q) = find_quote(s, i) {
        lemma_find_byte_bounds(s, q + 1, s[q]);
    }
}

proof fn lemma_scan_name_bounds(s: Seq<u8>, i: int, acc: Seq<u8>)
    requires
        0 <= i,
    ensures
        match scan_name(s, i, acc) {
            Ok((_, j)) => i <= j <= s.len(),
            Err(_) => true,
        },
    decreases s.len() - i,
{
    if i < s.len() && !is_name_end(s[i]) {
        if s[i] == 0x3au8 {
            lemma_scan_name_bounds(s, i + 1, Seq::empty());
        } else {
            lemma_scan_name_bounds(s, i + 1, acc.push(s[i]));
        }
    }
}

proof fn lemma_scan_end_name_bounds(s: Seq<u8>, i: int, acc: Seq<u8>)
    requires
        0 <= i,
    ensures
        match scan_end_name(s, i, acc) {
            Ok((_, j)) => i < j <= s.len(),
            Err(_) => true,
        },
    decreases s.len() - i,
{
    if i < s.len() && s[i] != 0x3eu8 {
        if s[i] == 0x3au8 {
            lemma_scan_end_name_bounds(s, i + 1, Seq::empty());
        } else {
            lemma_scan_end_name_bounds(s, i + 1, acc.push(s[i]));
        }
    }
}

proof fn lemma_scan_attrs_bounds(s: Seq<u8>, i: int)
    requires
        0 <= i,
    ensures
        match scan_attrs(s, i) {
            Ok((_, j)) => i < j <= s.len(),
            Err(_) => true,
        },
    decreases s.len() - i, 2int,
{
    if i < s.len() {
        if s[i] == 0x2fu8 || s[i] == 0x3eu8 {
        } else if is_ws_byte(s[i]) {
            lemma_scan_attrs_bounds(s, i + 1);
        } else {
            lemma_scan_attr_name_bounds(s, i, Seq::empty());
        }
    }
}

proof fn lemma_scan_attr_name_bounds(s: Seq<u8>, i: int, acc: Seq<u8>)
    requires
        0 <= i,
    ensures
        match scan_attr_name(s, i, acc) {
            Ok((_, j)) => i < j <= s.len(),
            Err(_) => true,
        },
    decreases s.len() - i, 1int,
{
    if i < s.len() {
        if s[i] == 0x3du8 {
            lemma_finish_attr_name_bounds(s, i + 1, acc);
        } else if is_ws_byte(s[i]) {
            lemma_scan_attr_eq_bounds(s, i + 1, acc);
        } else if s[i] == 0x3au8 {
            if acc == xmlns_name() {
                if let Some(j) = find_byte(s, i + 1, 0x3du8) {
                    if let Ok((_, m)) = scan_attr_value(s, j + 1) {
                        if i < m && m <= s.len() {
                            lemma_scan_attrs_bounds(s, m);
                        }
                    }
                }
            } else {
                lemma_scan_attr_name_bounds(s, i + 1, Seq::empty());
            }
        } else {
            lemma_scan_attr_name_bounds(s, i + 1, acc.push(s[i]));
        }
    }
}

proof fn lemma_scan_attr_eq_bounds(s: Seq<u8>, i: int, acc: Seq<u8>)
    requires
        0 <= i,
    ensures
        match scan_attr_eq(s, i, acc) {
            Ok((_, j)) => i < j <= s.len(),
            Err(_) => true,
        },
    decreases s.len() - i, 1int,
{
    if i < s.len() {
        if s[i] == 0x3du8 {
            lemma_finish_attr_name_bounds(s, i + 1, acc);
        } else if is_ws_byte(s[i]) {
            lemma_scan_attr_eq_bounds(s, i + 1, acc);
        }
    }
}

proof fn lemma_finish_attr_name_bounds(s: Seq<u8>, i: int, acc: Seq<u8>)
    requires
        0 <= i <= s.len(),
    ensures
        match finish_attr_name(s, i, acc) {
            Ok((_, j)) => i <= j <= s.len() && (acc != xmlns_name() ==> i == j),
            Err(_) => true,
        },
    decreases s.len() - i, 3int,
{
    if acc == xmlns_name() {
        if let Ok((_, m)) = scan_attr_value(s, i) {
            if i < m && m <= s.len() {
                lemma_scan_attrs_bounds(s, m);
            }
        }
    }
}

proof fn lemma_scan_text_bounds(s: Seq<u8>, i: int, acc: Seq<u8>)
    requires
        0 <= i <= s.len(),
    ensures
        match scan_text(s, i, acc) {
            TextStep::Tok { kind, end, .. } => {
                &&& i <= end <= s.len()
                &&& (kind != TokenKind::EndOfFile ==> i < end)
                &&& (kind == TokenKind::EndOfFile ==> end == s.len())
            },
            TextStep::Fail { .. } => true,
        },
    decreases s.len() - i,
{
    if i < s.len() {
        if s[i] == 0x3cu8 {
            if i + 1 < s.len() {
                if s[i + 1] == 0x2fu8 {
                } else if s[i + 1] == 0x21u8 {
                    if let Ok((app, j)) = scan_markup(s, i + 2) {
                        if i < j && j <= s.len() {
                            lemma_scan_text_bounds(s, j, acc + app);
                        }
                    }
                } else if s[i + 1] == 0x3fu8 {
                    if let Ok(j) = scan_declaration(s, i + 2) {
                        if i < j && j <= s.len() {
                            lemma_scan_text_bounds(s, j, acc);
                        }
                    }
                } else if all_ws(acc) {
                    lemma_scan_name_bounds(s, i + 1, Seq::empty());
                }
            }
        } else if s[i] == 0x26u8 {
            if let Ok((bytes, j)) = scan_entity(s, i + 1) {
                if i < j && j <= s.len() {
                    lemma_scan_text_bounds(s, j, acc + bytes);
                }
            }
        } else {
            lemma_scan_text_bounds(s, i + 1, acc.push(s[i]));
        }
    }
}

/// Each successful token step moves the cursor forward, except the
/// end-of-file token, which leaves it at the end of the input.
pub proof fn lemma_lex_step_bounds(s: Seq<u8>, i: int, st: LexerState, stash1: Seq<u8>)
    requires
        0 <= i <= s.len(),
    ensures
        match lex_step(s, i, st, stash1) {
            LexOutcome::Next { kind, end, .. } => {
                &&& i <= end <= s.len()
                &&& (kind != TokenKind::EndOfFile ==> i < end)
                &&& (kind == TokenKind::EndOfFile ==> end == s.len())
            },
            LexOutcome::Failed { .. } => true,
        },
{
    match st {
        LexerState::Start => lemma_scan_text_bounds(s, i, Seq::empty()),
        LexerState::Tag => lemma_scan_end_name_bounds(s, i, Seq::empty()),
        LexerState::FirstAttribute | LexerState::AttributeName => lemma_scan_attrs_bounds(s, i),
        LexerState::AttributeValue => lemma_scan_attr_value_bounds(s, i),
    }
}

} // verus!

verus! {

// ---------------------------------------------------------------------------
// Laws of the token grammar
// ---------------------------------------------------------------------------

/// Decimal and hexadecimal character references that denote the same code
/// point decode to the same bytes, and fail alike when that code point is
/// no Unicode scalar value.
pub proof fn lemma_numeric_entities_agree(s1: Seq<u8>, i1: int, s2: Seq<u8>, i2: int)
    ensures
        ({
            let d = scan_dec_digits(s1, i1, 0, true);
            let h = scan_hex_digits(s2, i2, 0, true);
            (d matches Ok(p) && h matches Ok(q) && p.0 == q.0) ==> match (
                finish_codepoint(d),
                finish_codepoint(h),
            ) {
                (Ok((b1, _)), Ok((b2, _))) => b1 == b2,
                (Err(e1), Err(e2)) => e1 == e2,
                _ => false,
            }
        }),
{
}

/// Everything before a colon is invisible: the local name of
/// `prefix:name` is the local name of `name`.
pub proof fn lemma_local_name_prefix(pre: Seq<u8>, name: Seq<u8>)
    ensures
        local_name(pre + seq![0x3au8] + name) == local_name(name),
    decreases name.len(),
{
    if name.len() == 0 {
        assert((pre + seq![0x3au8] + name).last() == 0x3au8);
        assert(local_name(pre + seq![0x3au8] + name) =~= Seq::<u8>::empty());
    } else {
        lemma_local_name_prefix(pre, name.drop_last());
        assert((pre + seq![0x3au8] + name).drop_last() =~= pre + seq![0x3au8]
            + name.drop_last());
        assert((pre + seq![0x3au8] + name).last() == name.last());
    }
}

/// A colon-free name is its own local name.
pub proof fn lemma_local_name_plain(name: Seq<u8>)
    requires
        forall|k: int| 0 <= k < name.len() ==> name[k] != 0x3au8,
    ensures
        local_name(name) == name,
    decreases name.len(),
{
    if name.len() > 0 {
        lemma_local_name_plain(name.drop_last());
        assert(local_name(name) =~= name);
    }
}

/// What start-tag name scanning yields is exactly the local name of the
/// scanned segment: namespace prefixes are stripped, nothing else changes.
pub proof fn lemma_scan_name_strips(s: Seq<u8>, i: int, acc: Seq<u8>)
    requires
        0 <= i,
        local_name(acc) == acc,
    ensures
        match scan_name(s, i, acc) {
            Ok((nm, j)) => i <= j <= s.len() && nm == local_name(acc + s.subrange(i, j)),
            Err(_) => true,
        },
    decreases s.len() - i,
{
    lemma_scan_name_bounds(s, i, acc);
    if i < s.len() {
        if is_name_end(s[i]) {
            assert(acc + s.subrange(i, i) =~= acc);
        } else if s[i] == 0x3au8 {
            lemma_scan_name_strips(s, i + 1, Seq::empty());
            if let Ok((nm, j)) = scan_name(s, i, acc) {
                assert(Seq::<u8>::empty() + s.subrange(i + 1, j) =~= s.subrange(i + 1, j));
                assert(acc + s.subrange(i, j) =~= acc + seq![0x3au8] + s.subrange(i + 1, j));
                lemma_local_name_prefix(acc, s.subrange(i + 1, j));
            }
        } else {
            assert(acc.push(s[i]).drop_last() =~= acc);
            assert(acc.push(s[i]).last() == s[i]);
            assert(local_name(acc.push(s[i])) =~= acc.push(s[i]));
            lemma_scan_name_strips(s, i + 1, acc.push(s[i]));
            if let Ok((nm, j)) = scan_name(s, i, acc) {
                assert(acc.push(s[i]) + s.subrange(i + 1, j) =~= acc + s.subrange(i, j));
            }
        }
    }
}

/// The same for end-tag names, whose closing `>` is consumed.
pub proof fn lemma_scan_end_name_strips(s: Seq<u8>, i: int, acc: Seq<u8>)
    requires
        0 <= i,
        local_name(acc) == acc,
    ensures
        match scan_end_name(s, i, acc) {
            Ok((nm, j)) => i < j <= s.len() && nm == local_name(acc + s.subrange(i, j - 1)),
            Err(_) => true,
        },
    decreases s.len() - i,
{
    lemma_scan_end_name_bounds(s, i, acc);
    if i < s.len() {
        if s[i] == 0x3eu8 {
            assert(acc + s.subrange(i, i) =~= acc);
        } else if s[i] == 0x3au8 {
            lemma_scan_end_name_strips(s, i + 1, Seq::empty());
            if let Ok((nm, j)) = scan_end_name(s, i, acc) {
                assert(Seq::<u8>::empty() + s.subrange(i + 1, j - 1) =~= s.subrange(i + 1, j - 1));
                assert(acc + s.subrange(i, j - 1) =~= acc + seq![0x3au8] + s.subrange(i + 1, j - 1));
                lemma_local_name_prefix(acc, s.subrange(i + 1, j - 1));
            }
        } else {
            assert(acc.push(s[i]).drop_last() =~= acc);
            assert(acc.push(s[i]).last() == s[i]);
            assert(local_name(acc.push(s[i])) =~= acc.push(s[i]));
            lemma_scan_end_name_strips(s, i + 1, acc.push(s[i]));
            if let Ok((nm, j)) = scan_end_name(s, i, acc) {
                assert(acc.push(s[i]) + s.subrange(i + 1, j - 1) =~= acc + s.subrange(i, j - 1));
            }
        }
    }
}

} // verus!

verus! {

// ---------------------------------------------------------------------------
// UTF-8 validation of token payloads
// ---------------------------------------------------------------------------

/// A UTF-8 continuation byte.
pub open spec fn is_cont_byte(b: u8) -> bool {
    0x80 <= b <= 0xBF
}

/// The bytes from `i` on are well-formed UTF-8: the shortest-form ranges,
/// with surrogates and values beyond the last code point excluded.
pub open spec fn utf8_ok_from(s: Seq<u8>, i: int) -> bool
    decreases s.len() - i,
{
    if i < 0 {
        false
    } else if i >= s.len() {
        true
    } else {
        let b = s[i];
        if b < 0x80 {
            utf8_ok_from(s, i + 1)
        } else if 0xC2 <= b <= 0xDF {
            i + 1 < s.len() && is_cont_byte(s[i + 1]) && utf8_ok_from(s, i + 2)
        } else if b == 0xE0 {
            i + 2 < s.len() && 0xA0 <= s[i + 1] <= 0xBF && is_cont_byte(s[i + 2])
                && utf8_ok_from(s, i + 3)
        } else if b == 0xED {
            i + 2 < s.len() && 0x80 <= s[i + 1] <= 0x9F && is_cont_byte(s[i + 2])
                && utf8_ok_from(s, i + 3)
        } else if 0xE1 <= b <= 0xEF {
            i + 2 < s.len() && is_cont_byte(s[i + 1]) && is_cont_byte(s[i + 2])
                && utf8_ok_from(s, i + 3)
        } else if b == 0xF0 {
            i + 3 < s.len() && 0x90 <= s[i + 1] <= 0xBF && is_cont_byte(s[i + 2])
                && is_cont_byte(s[i + 3]) && utf8_ok_from(s, i + 4)
        } else if b == 0xF4 {
            i + 3 < s.len() && 0x80 <= s[i + 1] <= 0x8F && is_cont_byte(s[i + 2])
                && is_cont_byte(s[i + 3]) && utf8_ok_from(s, i + 4)
        } else if 0xF1 <= b <= 0xF3 {
            i + 3 < s.len() && is_cont_byte(s[i + 1]) && is_cont_byte(s[i + 2])
                && is_cont_byte(s[i + 3]) && utf8_ok_from(s, i + 4)
        } else {
            false
        }
    }
}

/// The whole byte string is well-formed UTF-8.
pub open spec fn is_utf8(s: Seq<u8>) -> bool {
    utf8_ok_from(s, 0)
}

/// UTF-8 well-formedness test.
pub fn bytes_are_utf8(s: &Vec<u8>) -> (r: bool)
    ensures
        r == is_utf8(s@),
{
    let n = s.len();
    let mut i: usize = 0;
    while i < n
        invariant
            0 <= i <= n,
            n == s@.len(),
            is_utf8(s@) == utf8_ok_from(s@, i as int),
        decreases n - i,
    {
        let b = s[i];
        if b < 0x80 {
            i = i + 1;
        } else if 0xC2 <= b && b <= 0xDF {
            if n - i > 1 && 0x80 <= s[i + 1] && s[i + 1] <= 0xBF {
                i = i + 2;
            } else {
                return false;
            }
        } else if b == 0xE0 {
            if n - i > 2 && 0xA0 <= s[i + 1] && s[i + 1] <= 0xBF && 0x80 <= s[i + 2]
                && s[i + 2] <= 0xBF {
                i = i + 3;
            } else {
                return false;
            }
        } else if b == 0xED {
            if n - i > 2 && 0x80 <= s[i + 1] && s[i + 1] <= 0x9F && 0x80 <= s[i + 2]
                && s[i + 2] <= 0xBF {
                i = i + 3;
            } else {
                return false;
            }
        } else if 0xE1 <= b && b <= 0xEF {
            if n - i > 2 && 0x80 <= s[i + 1] && s[i + 1] <= 0xBF && 0x80 <= s[i + 2]
                && s[i + 2] <= 0xBF {
                i = i + 3;
            } else {
                return false;
            }
        } else if b == 0xF0 {
            if n - i > 3 && 0x90 <= s[i + 1] && s[i + 1] <= 0xBF && 0x80 <= s[i + 2]
                && s[i + 2] <= 0xBF && 0x80 <= s[i + 3] && s[i + 3] <= 0xBF {
                i = i + 4;
            } else {
                return false;
            }
        } else if b == 0xF4 {
            if n - i > 3 && 0x80 <= s[i + 1] && s[i + 1] <= 0x8F && 0x80 <= s[i + 2]
                && s[i + 2] <= 0xBF && 0x80 <= s[i + 3] && s[i + 3] <= 0xBF {
                i = i + 4;
            } else {
                return false;
            }
        } else if 0xF1 <= b && b <= 0xF3 {
            if n - i > 3 && 0x80 <= s[i + 1] && s[i + 1] <= 0xBF && 0x80 <= s[i + 2]
                && s[i + 2] <= 0xBF && 0x80 <= s[i + 3] && s[i + 3] <= 0xBF {
                i = i + 4;
            } else {
                return false;
            }
        } else {
            return false;
        }
    }
    true
}

impl XmlIterator {
    /// Text handed out of the decoder must be valid UTF-8, as the decoded
    /// documents are; anything else fails with position information.
    pub fn from_utf8(&self, txt: &Vec<u8>) -> (r: Result<(), Error>)
        ensures
            r is Ok <==> is_utf8(txt@),
            r is Err ==> r == Err::<(), Error>(Error::SyntaxError(
                ErrorCode::NotUtf8,
                self.spec_line() as usize,
                self.spec_col() as usize,
            )),
    {
        if bytes_are_utf8(txt) {
            Ok(())
        } else {
            Err(self.error(ErrorCode::NotUtf8))
        }
    }
}

} // verus!
