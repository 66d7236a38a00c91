//! Showing decoded bytes as text.

use vstd::prelude::*;

verus! {

/// The text of a byte sequence: each byte becomes the character whose code
/// point is the byte's value. Nothing is interpreted as UTF-8.
pub open spec fn text_of(bytes: Seq<u8>) -> Seq<char> {
    Seq::new(bytes.len(), |i: int| bytes[i] as char)
}

/// `String::push` of the standard library. Claimed of it: the string
/// afterwards is the string before with the one character added at its end.
pub assume_specification[ String::push ](text: &mut String, ch: char)
    ensures
        final(text)@ == old(text)@.push(ch),
;

/// Converts bytes into a `String`, one character per byte.
pub fn u8_vec_to_string(message: &Vec<u8>) -> (text: String)
    ensures
        text@ == text_of(message@),
{
    let mut text: String = String::new();
    let mut i: usize = 0;
    while i < message.len()
        invariant
            i <= message@.len(),
            text@.len() == i,
            forall|j: int| 0 <= j < i ==> #[trigger] text@[j] == message@[j] as char,
        decreases message@.len() - i,
    {
        text.push(message[i] as char);
        i += 1;
    }
    assert(text@ =~= text_of(message@));
    text
}

} // verus!
