//! What is taken for granted of two functions of std.
use vstd::prelude::*;

verus! {

/// `char::from_u32` gives the character whose scalar value is `i`, and `None` exactly when
/// `i` is no Unicode scalar value: a surrogate, or above `0x10FFFF`.
pub assume_specification[ char::from_u32 ](i: u32) -> (r: Option<char>)
    ensures
        match r {
            Some(c) => c as u32 == i,
            None => !(i <= 0xD7FF || (0xE000 <= i && i <= 0x10FFFF)),
        },
;

/// `String::push` appends the one character `ch` to the end of the string.
pub assume_specification[ String::push ](s: &mut String, ch: char)
    ensures
        final(s)@ == old(s)@.push(ch),
;

} // verus!
