//! Whitespace classification shared by the lexer and the decoder.

use vstd::prelude::*;

verus! {

/// A byte is XML whitespace: space, tab, carriage return, or line feed.
pub open spec fn is_ws_byte(b: u8) -> bool {
    b == 0x20u8 || b == 0x09u8 || b == 0x0du8 || b == 0x0au8
}

/// Every byte of the string is whitespace (vacuously true of the empty string).
pub open spec fn all_ws(s: Seq<u8>) -> bool {
    forall|i: int| 0 <= i < s.len() ==> is_ws_byte(s[i])
}

/// Whitespace test on one byte.
pub fn byte_is_ws(b: u8) -> (r: bool)
    ensures
        r == is_ws_byte(b),
{
    b == 0x20u8 || b == 0x09u8 || b == 0x0du8 || b == 0x0au8
}

/// Whitespace test on a whole byte string.
pub fn bytes_are_ws(s: &Vec<u8>) -> (r: bool)
    ensures
        r == all_ws(s@),
{
    let mut i: usize = 0;
    while i < s.len()
        invariant
            0 <= i <= s@.len(),
            forall|j: int| 0 <= j < i ==> is_ws_byte(s@[j]),
        decreases s@.len() - i,
    {
        if !byte_is_ws(s[i]) {
            return false;
        }
        i = i + 1;
    }
    true
}

} // verus!
