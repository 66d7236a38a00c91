//! Applying a pad to a message, byte by byte.

use vstd::prelude::*;

verus! {

/// One decoded byte: the XOR of a message byte and a pad byte, with the
/// most significant bit cleared.
pub open spec fn unmask(m: u8, p: u8) -> u8 {
    (m ^ p) & 0x7F
}

/// The smaller of two lengths.
pub open spec fn shorter(a: nat, b: nat) -> nat {
    if a <= b {
        a
    } else {
        b
    }
}

/// The message decoded under the pad, as far as both reach.
pub open spec fn padded(message: Seq<u8>, pad: Seq<u8>) -> Seq<u8> {
    Seq::new(shorter(message.len(), pad.len()), |i: int| unmask(message[i], pad[i]))
}

/// Every byte produced by [`unmask`] is a 7-bit value.
pub proof fn lemma_unmask_is_seven_bit(m: u8, p: u8)
    ensures
        unmask(m, p) < 0x80,
        unmask(m, p) & 0x80 == 0,
{
    assert(((m ^ p) & 0x7F) < 0x80) by (bit_vector);
    assert(((m ^ p) & 0x7F) & 0x80 == 0) by (bit_vector);
}

/// Applies a pad to a message and returns the new message.
///
/// The result is as long as the shorter of the two arguments. Every byte of
/// it is the XOR of the bytes at that position with the high bit cleared, so
/// the result only makes sense for 7-bit ASCII text.
pub fn apply_pad(message: &Vec<u8>, pad: &Vec<u8>) -> (result: Vec<u8>)
    ensures
        result@ == padded(message@, pad@),
        result@.len() == shorter(message@.len(), pad@.len()),
        forall|i: int| 0 <= i < result@.len() ==> #[trigger] result@[i] & 0x80 == 0,
{
    let n: usize = if message.len() <= pad.len() { message.len() } else { pad.len() };
    let mut result: Vec<u8> = Vec::new();
    let mut i: usize = 0;
    while i < n
        invariant
            n <= message@.len(),
            n <= pad@.len(),
            i <= n,
            result@.len() == i,
            forall|j: int| 0 <= j < i ==> #[trigger] result@[j] == unmask(message@[j], pad@[j]),
        decreases n - i,
    {
        result.push((message[i] ^ pad[i]) & 0x7F);
        i += 1;
    }
    proof {
        assert(result@ =~= padded(message@, pad@));
        assert forall|j: int| 0 <= j < result@.len() implies #[trigger] result@[j] & 0x80 == 0 by {
            lemma_unmask_is_seven_bit(message@[j], pad@[j]);
        }
    }
    result
}

} // verus!
