//! Recovery of text encrypted under a reused one-time pad.
//!
//! Several ciphertexts that share one keystream leak it: wherever one
//! plaintext holds a space and another a letter, the XOR of the two
//! ciphertext bytes is itself a letter, and each ciphertext byte XOR `0x20`
//! is a candidate for the pad byte at that position. [`OTPBreaker`] counts
//! such candidates position by position and decodes a target ciphertext with
//! the most voted pad.

pub mod breaker;
pub mod hex;
pub mod laws;
pub mod order;
pub mod pad;
pub mod text;
pub mod votes;

pub use breaker::OTPBreaker;
pub use hex::{hex_str_to_u8_vec, HexError};
pub use pad::apply_pad;
pub use text::u8_vec_to_string;
