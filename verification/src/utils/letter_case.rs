//! Upper and lower case of ASCII letters.
use vstd::prelude::*;

verus! {

/// The lower-case form of an ASCII capital; every other character stands for itself.
pub open spec fn lower(c: char) -> char {
    if 'A' <= c && c <= 'Z' {
        ((c as u8 + 32) as u8) as char
    } else {
        c
    }
}

/// The upper-case form of an ASCII small letter; every other character stands for itself.
pub open spec fn upper(c: char) -> char {
    if 'a' <= c && c <= 'z' {
        ((c as u8 - 32) as u8) as char
    } else {
        c
    }
}

/// A sequence of characters with each one put in lower case.
pub open spec fn lower_seq(s: Seq<char>) -> Seq<char> {
    Seq::new(s.len(), |i: int| lower(s[i]))
}

/// A sequence of characters with each one put in upper case.
pub open spec fn upper_seq(s: Seq<char>) -> Seq<char> {
    Seq::new(s.len(), |i: int| upper(s[i]))
}

/// Whether no ASCII capital occurs in the sequence.
pub open spec fn is_lower(s: Seq<char>) -> bool {
    forall|i: int| 0 <= i < s.len() ==> !('A' <= #[trigger] s[i] && s[i] <= 'Z')
}

/// Whether `n` is a Unicode scalar value, the number of some character.
pub open spec fn is_scalar_value(n: u32) -> bool {
    n <= 0xD7FF || (0xE000 <= n && n <= 0x10FFFF)
}

/// Every character is a Unicode scalar value. The verifier knows this of a character that
/// stands by itself, and learns it here of one that was taken out of a sequence.
pub proof fn lemma_char_range(c: char)
    ensures
        0 <= c as int <= 0xD7FF || 0xE000 <= c as int <= 0x10FFFF,
        is_scalar_value(c as u32),
        c as u32 == c as int,
{
}

/// The character in lower case.
pub fn to_lower(c: char) -> (r: char)
    ensures
        r == lower(c),
{
    if 'A' <= c && c <= 'Z' {
        let b: u8 = c as u8;
        (b + 32) as char
    } else {
        c
    }
}

/// The character in upper case.
pub fn to_upper(c: char) -> (r: char)
    ensures
        r == upper(c),
{
    if 'a' <= c && c <= 'z' {
        let b: u8 = c as u8;
        (b - 32) as char
    } else {
        c
    }
}

/// The characters of a string, each in lower case.
pub fn lower_chars(word: &str) -> (r: Vec<char>)
    ensures
        r@ == lower_seq(word@),
{
    let mut out: Vec<char> = Vec::new();
    for c in it: word.chars()
        invariant
            it.seq() == word@,
            out@ == lower_seq(word@.take(it.index())),
    {
        out.push(to_lower(c));
    }
    out
}

/// The characters of `chars` as a string, each in upper case.
pub fn to_upper_string(chars: &Vec<char>) -> (r: String)
    ensures
        r@ == upper_seq(chars@),
{
    let mut out = String::new();
    for i in 0..chars.len()
        invariant
            out@ == upper_seq(chars@.take(i as int)),
    {
        out.push(to_upper(chars[i]));
    }
    out
}

/// The characters of a string.
pub fn chars_of(word: &str) -> (r: Vec<char>)
    ensures
        r@ == word@,
{
    let mut out: Vec<char> = Vec::new();
    for c in it: word.chars()
        invariant
            it.seq() == word@,
            out@ == word@.take(it.index()),
    {
        out.push(c);
    }
    out
}

/// The string with each character in upper case.
pub fn to_upper_case(word: &str) -> (r: String)
    ensures
        r@ == upper_seq(word@),
{
    to_upper_string(&chars_of(word))
}

} // verus!
