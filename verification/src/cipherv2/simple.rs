//! The layout that puts seven bits of each byte side by side.

use crate::cipherv2;
use crate::cipherv2::{
    decrypt_outcome, decrypted_bytes, encrypted_chars, is_text, BytePair, CipherV2,
};
use crate::error::CipherError;
use vstd::prelude::*;
use vstd::utf8::{char_u32_cast, encode_utf8};

verus! {

/// Mask of the bits of a code point that hold the first byte.
pub const C0_MASK: u32 = 0b0011_1111_1000_0000;

/// Mask of the bits of a code point that hold the second byte.
pub const C1_MASK: u32 = 0b0111_1111;

/// The layout whose character for a pair has the first byte in bits 7 to
/// 14 of its code point and the second byte in bits 0 to 7, one laid over
/// the other in bit 7.
pub struct Simple;

/// The code point for a pair.
pub open spec fn simple_code_point(pair: BytePair) -> u16 {
    ((pair.0 as u16) << 7) | (pair.1 as u16)
}

/// The pair that a code point stands for: bits 7 to 13, and bits 0 to 6.
pub open spec fn simple_pair(code_point: u32) -> BytePair {
    (((code_point & 0x3f80) >> 7) as u8, (code_point & 0x7f) as u8)
}

impl CipherV2 for Simple {
    open spec fn encrypt_char_pair_spec(&self, pair: BytePair) -> char {
        (simple_code_point(pair) as u32) as char
    }

    open spec fn decrypt_char_pair_spec(&self, encrypted: char) -> BytePair {
        simple_pair(encrypted as u32)
    }

    fn encrypt_char_pair(&self, pair: BytePair) -> (encrypted: char) {
        let c0: u16 = pair.0 as u16;
        let c1: u16 = pair.1 as u16;
        let to_encrypt: u16 = (c0 << 7) | c1;
        assert(to_encrypt <= 0x7fff) by (bit_vector)
            requires
                to_encrypt == (c0 << 7) | c1,
                c0 <= 0xff,
                c1 <= 0xff,
        ;
        let encrypted = char::from_u32(to_encrypt as u32).unwrap();
        proof {
            char_u32_cast(encrypted, to_encrypt as u32);
        }
        encrypted
    }

    fn decrypt_char_pair(&self, encrypted: char) -> (pair: BytePair) {
        let bytes: u32 = encrypted as u32;
        let c0: u32 = (bytes & C0_MASK) >> 7;
        let c1: u32 = bytes & C1_MASK;
        assert(c0 <= 0x7f && c1 <= 0x7f) by (bit_vector)
            requires
                c0 == (bytes & 0x3f80) >> 7,
                c1 == bytes & 0x7f,
        ;
        (c0 as u8, c1 as u8)
    }
}

/// Unpacking a packed pair gives the pair back, the first byte without its
/// eighth bit, where the second byte has its eighth bit clear.
pub proof fn lemma_round_trip(pair: BytePair)
    requires
        pair.1 < 128,
    ensures
        Simple.decrypt_char_pair_spec(Simple.encrypt_char_pair_spec(pair)) == (
            pair.0 & 0x7f,
            pair.1,
        ),
{
    let c0 = pair.0;
    let c1 = pair.1;
    let code_point = simple_code_point(pair);
    let wide = code_point as u32;
    assert(wide <= 0x7fff && ((wide & 0x3f80) >> 7) as u8 == c0 & 0x7f && (wide & 0x7f) as u8
        == c1) by (bit_vector)
        requires
            c1 < 128,
            code_point == ((c0 as u16) << 7) | (c1 as u16),
            wide == code_point as u32,
    ;
    assert((wide as char) as u32 == wide);
}

/// Text, packed and unpacked again, comes back as it was, and unpacking it
/// does not fail.
pub proof fn lemma_text_round_trip(input: Seq<u8>)
    requires
        is_text(input),
    ensures
        decrypted_bytes(
            |encrypted: char| Simple.decrypt_char_pair_spec(encrypted),
            encode_utf8(
                encrypted_chars(|pair: BytePair| Simple.encrypt_char_pair_spec(pair), input),
            ),
        ) == input,
        decrypt_outcome(
            encode_utf8(
                encrypted_chars(|pair: BytePair| Simple.encrypt_char_pair_spec(pair), input),
            ),
        ) == Ok::<(), CipherError>(()),
{
    let pack = |pair: BytePair| Simple.encrypt_char_pair_spec(pair);
    let unpack = |encrypted: char| Simple.decrypt_char_pair_spec(encrypted);
    assert forall|pair: BytePair| 0 < pair.0 < 128 && pair.1 < 128 implies unpack(
        #[trigger] pack(pair),
    ) == pair && !(0x71 <= pack(pair) as u32 <= 0x7f) by {
        lemma_round_trip(pair);
        let c0 = pair.0;
        let c1 = pair.1;
        let code_point = simple_code_point(pair);
        assert(c0 & 0x7f == c0 && 0x80 <= code_point as u32 <= 0x7fff) by (bit_vector)
            requires
                0 < c0 < 128,
                code_point == ((c0 as u16) << 7) | (c1 as u16),
        ;
        assert(((code_point as u32) as char) as u32 == code_point as u32);
    }
    cipherv2::lemma_round_trip(pack, unpack, input);
}

} // verus!
