use vstd::prelude::*;
use crate::text::push_char;

verus! {

/// The letter that `c` becomes when shifted forward by `shift` places,
/// staying in its own case; any other character is kept.
pub open spec fn shift_char(c: char, shift: u8) -> char {
    if 'a' <= c && c <= 'z' {
        (('a' as u32) + ((c as u32 - 'a' as u32) + shift as u32) % 26) as char
    } else if 'A' <= c && c <= 'Z' {
        (('A' as u32) + ((c as u32 - 'A' as u32) + shift as u32) % 26) as char
    } else {
        c
    }
}

/// Shifts every ASCII letter of `text` forward by `shift` places (wrapping
/// within its case) and keeps every other character.
pub fn decrypt(text: &str, shift: u8) -> (r: String)
    ensures
        r@.len() == text@.len(),
        forall|i: int| 0 <= i < text@.len() ==> r@[i] == shift_char(#[trigger] text@[i], shift),
{
    let mut result = String::new();
    let n = text.unicode_len();
    let mut i: usize = 0;
    while i < n
        invariant
            n == text@.len(),
            i <= n,
            result@.len() == i,
            forall|j: int| 0 <= j < i ==> result@[j] == shift_char(#[trigger] text@[j], shift),
        decreases n - i,
    {
        let c = text.get_char(i);
        let d: char = if 'a' <= c && c <= 'z' {
            let v: u32 = ('a' as u32) + ((c as u32 - 'a' as u32) + shift as u32) % 26;
            proof { assert(v < 128); }
            (v as u8) as char
        } else if 'A' <= c && c <= 'Z' {
            let v: u32 = ('A' as u32) + ((c as u32 - 'A' as u32) + shift as u32) % 26;
            (v as u8) as char
        } else {
            c
        };
        push_char(&mut result, d);
        i = i + 1;
    }
    result
}

} // verus!
