//! Reading ciphertexts written as hexadecimal text.

use vstd::prelude::*;
use vstd::string::is_ascii_spec_bytes;

verus! {

/// Why a text could not be read.
#[derive(Debug, Clone, Copy, PartialEq, Eq, Structural)]
pub enum HexError {
    /// The text has an odd number of characters, or a character that is not
    /// a hexadecimal digit.
    MalformedInput,
}

/// Whether a character is one of `0-9`, `a-f`, `A-F`.
pub open spec fn is_hex_digit(c: char) -> bool {
    ('0' <= c && c <= '9') || ('a' <= c && c <= 'f') || ('A' <= c && c <= 'F')
}

/// The number that a hexadecimal digit stands for.
pub open spec fn hex_digit_value(c: char) -> int
    recommends
        is_hex_digit(c),
{
    if '0' <= c && c <= '9' {
        c as int - '0' as int
    } else if 'a' <= c && c <= 'f' {
        c as int - 'a' as int + 10
    } else {
        c as int - 'A' as int + 10
    }
}

/// Whether a text is an even number of hexadecimal digits.
pub open spec fn is_hex_text(text: Seq<char>) -> bool {
    text.len() % 2 == 0 && forall|i: int| 0 <= i < text.len() ==> is_hex_digit(#[trigger] text[i])
}

/// The bytes that a hexadecimal text stands for: one per pair of digits,
/// the first digit of a pair being the high half of the byte.
pub open spec fn hex_bytes(text: Seq<char>) -> Seq<u8> {
    Seq::new(
        text.len() / 2,
        |i: int| (16 * hex_digit_value(text[2 * i]) + hex_digit_value(text[2 * i + 1])) as u8,
    )
}

/// The value of an ASCII hexadecimal digit, if the byte is one.
fn digit_of(b: u8) -> (value: Option<u8>)
    requires
        b < 0x80,
    ensures
        value is Some <==> is_hex_digit(b as char),
        value matches Some(v) ==> v == hex_digit_value(b as char) && v < 16,
{
    if 0x30 <= b && b <= 0x39 {
        Some(b - 0x30)
    } else if 0x61 <= b && b <= 0x66 {
        Some(b - 0x61 + 10)
    } else if 0x41 <= b && b <= 0x46 {
        Some(b - 0x41 + 10)
    } else {
        None
    }
}

/// Converts hexadecimal text to the bytes it stands for.
///
/// Succeeds exactly on an even number of hexadecimal digits, of either
/// case. Anything else is [`HexError::MalformedInput`]; no part of a
/// malformed text is handed out.
pub fn hex_str_to_u8_vec(string: &str) -> (result: Result<Vec<u8>, HexError>)
    ensures
        result is Ok <==> is_hex_text(string@),
        result matches Ok(bytes) ==> bytes@ == hex_bytes(string@),
        result matches Err(e) ==> e == HexError::MalformedInput,
{
    if !string.is_ascii() {
        proof {
            let i = choose|i: int|
                0 <= i < string@.len() && !('\0' <= #[trigger] string@[i] <= '\u{7f}');
            assert(!is_hex_digit(string@[i]));
        }
        return Err(HexError::MalformedInput);
    }
    proof {
        is_ascii_spec_bytes(string);
    }
    let digits: &[u8] = string.as_bytes();
    let n: usize = digits.len();
    assert(n == string@.len());
    assert(forall|i: int| 0 <= i < n ==> #[trigger] digits@[i] == string@[i] as u8);
    if n % 2 != 0 {
        return Err(HexError::MalformedInput);
    }
    let mut bytes: Vec<u8> = Vec::new();
    let mut i: usize = 0;
    while i < n / 2
        invariant
            n == string@.len(),
            n == digits@.len(),
            n % 2 == 0,
            i <= n / 2,
            forall|j: int| 0 <= j < n ==> '\0' <= #[trigger] string@[j] <= '\u{7f}',
            forall|j: int| 0 <= j < n ==> #[trigger] digits@[j] == string@[j] as u8,
            forall|j: int| 0 <= j < 2 * i ==> is_hex_digit(#[trigger] string@[j]),
            bytes@.len() == i,
            forall|j: int| 0 <= j < i ==> #[trigger] bytes@[j] == hex_bytes(string@)[j],
        decreases n / 2 - i,
    {
        let high_at: usize = 2 * i;
        let low_at: usize = 2 * i + 1;
        let ghost high_char = string@[high_at as int];
        let ghost low_char = string@[low_at as int];
        assert(digits@[high_at as int] as char == high_char);
        assert(digits@[low_at as int] as char == low_char);
        match (digit_of(digits[high_at]), digit_of(digits[low_at])) {
            (Some(high), Some(low)) => {
                bytes.push(high * 16 + low);
            },
            _ => {
                assert(!is_hex_digit(high_char) || !is_hex_digit(low_char));
                return Err(HexError::MalformedInput);
            },
        }
        i += 1;
    }
    assert(bytes@ =~= hex_bytes(string@));
    Ok(bytes)
}

} // verus!
