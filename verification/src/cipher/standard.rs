//! The layout of three bytes.

use crate::cipher::{packer, BytePair, Cipher};
use crate::transform::{
    encrypted_bytes, has_no_control_bytes, lemma_encrypted_valid_utf8, unit_at,
};
use vstd::prelude::*;
use vstd::utf8::{pop_first_scalar, valid_first_scalar, valid_utf8};

verus! {

/// Mask of the seventh bit of a byte, the highest bit that is kept.
pub const SIG_BIT_MASK: u8 = 0b0100_0000;

/// Mask of the six low bits of a byte, which one continuation byte carries.
pub const LOWER_BITS_MASK: u8 = 0b0011_1111;

/// Mask of the flag that marks a unit of one byte.
pub const SINGLE_CHAR_MASK: u8 = 0b0000_0100;

/// The lead byte of a character of three bytes, before any bits are put in.
pub const CHAR_WIDTH_MASK: u8 = 0b1110_0000;

/// A continuation byte, before any bits are put in.
pub const CONINUATION_MASK: u8 = 0b1000_0000;

/// The layout of three bytes. Its units are the UTF-8 forms of code points
/// from U+0800 to U+6FFF; a pair whose first byte is a control character
/// gets three bytes that are the form of no code point.
pub struct Standard;

/// The unit for a pair. The lead byte is `1110_0fab`: `a` is the seventh bit
/// of the first byte; with a second byte, `f` is clear and `b` is the
/// seventh bit of that byte; without one, `f` is set and `b` is clear. The
/// two continuation bytes carry the six low bits of the first and of the
/// second byte, and no bits where the second is absent.
pub open spec fn standard_unit(pair: BytePair) -> Seq<u8> {
    match pair.1 {
        Some(c1) => seq![
            0xE0u8 | ((pair.0 & 0x40) >> 5) | ((c1 & 0x40) >> 6),
            0x80u8 | (pair.0 & 0x3f),
            0x80u8 | (c1 & 0x3f),
        ],
        None => seq![0xE0u8 | ((pair.0 & 0x40) >> 5) | 0x04u8, 0x80u8 | (pair.0 & 0x3f), 0x80u8],
    }
}

/// The pair that a unit stands for: the second byte is absent where the
/// flag in the lead byte is set.
pub open spec fn standard_pair(encrypted: Seq<u8>) -> BytePair {
    (
        ((encrypted[0] & 2) << 5) | (encrypted[1] & 0x3f),
        if encrypted[0] & 0x04 != 0 {
            None
        } else {
            Some(((encrypted[0] & 1) << 6) | (encrypted[2] & 0x3f))
        },
    )
}

impl Cipher<3> for Standard {
    open spec fn encrypt_char_pair_spec(&self, pair: BytePair) -> Seq<u8> {
        standard_unit(pair)
    }

    open spec fn decrypt_char_pair_spec(&self, encrypted: Seq<u8>) -> BytePair {
        standard_pair(encrypted)
    }

    fn encrypt_char_pair(&self, pair: BytePair) -> (encrypted: [u8; 3]) {
        let mut encrypted_char: [u8; 3] = [0, 0, 0];
        let c0: u8 = pair.0;
        let sig_0: u8 = c0 & SIG_BIT_MASK;
        let low_0: u8 = c0 & LOWER_BITS_MASK;
        encrypted_char[0] = CHAR_WIDTH_MASK | (sig_0 >> 5);
        encrypted_char[1] = CONINUATION_MASK | low_0;
        if let Some(c1) = pair.1 {
            let sig_1: u8 = c1 & SIG_BIT_MASK;
            let low_1: u8 = c1 & LOWER_BITS_MASK;
            encrypted_char[0] = encrypted_char[0] | (sig_1 >> 6);
            encrypted_char[2] = CONINUATION_MASK | low_1;
        } else {
            encrypted_char[0] = encrypted_char[0] | SINGLE_CHAR_MASK;
            encrypted_char[2] = CONINUATION_MASK;
        }
        assert(encrypted_char@ =~= standard_unit(pair));
        encrypted_char
    }

    fn decrypt_char_pair(&self, encrypted: [u8; 3]) -> (pair: BytePair) {
        let c0_sig_bit: u8 = (encrypted[0] & 2) << 5;
        let c0_lower: u8 = encrypted[1] & LOWER_BITS_MASK;
        let c0: u8 = c0_sig_bit | c0_lower;

        if encrypted[0] & SINGLE_CHAR_MASK != 0 {
            return (c0, None);
        }
        let c1_sig_bit: u8 = (encrypted[0] & 1) << 6;
        let c1_lower: u8 = encrypted[2] & LOWER_BITS_MASK;
        let c1: u8 = c1_sig_bit | c1_lower;
        (c0, Some(c1))
    }

    proof fn lemma_unit_width(&self, pair: BytePair) {
    }

    proof fn lemma_round_trip(&self, pair: BytePair) {
        let c0 = pair.0;
        let unit = standard_unit(pair);
        let lead = unit[0];
        let b1 = unit[1];
        let b2 = unit[2];
        match pair.1 {
            Some(c1) => {
                assert(lead & 0x04 == 0 && ((lead & 2) << 5) | (b1 & 0x3f) == c0 & 0x7f && ((lead
                    & 1) << 6) | (b2 & 0x3f) == c1 & 0x7f) by (bit_vector)
                    requires
                        lead == 0xE0u8 | ((c0 & 0x40) >> 5) | ((c1 & 0x40) >> 6),
                        b1 == 0x80u8 | (c0 & 0x3f),
                        b2 == 0x80u8 | (c1 & 0x3f),
                ;
            },
            None => {
                assert(lead & 0x04 != 0 && ((lead & 2) << 5) | (b1 & 0x3f) == c0 & 0x7f)
                    by (bit_vector)
                    requires
                        lead == 0xE0u8 | ((c0 & 0x40) >> 5) | 0x04u8,
                        b1 == 0x80u8 | (c0 & 0x3f),
                ;
            },
        }
    }
}

/// A unit is UTF-8, but for the unit of two bytes whose first is a control
/// character once its eighth bit is dropped.
pub proof fn lemma_unit_is_utf8(pair: BytePair)
    requires
        pair.1 is Some ==> pair.0 & 0x60 != 0,
    ensures
        valid_utf8(standard_unit(pair)),
{
    let c0 = pair.0;
    let unit = standard_unit(pair);
    let lead = unit[0];
    let b1 = unit[1];
    let b2 = unit[2];
    match pair.1 {
        Some(c1) => {
            assert(0xe0 <= lead <= 0xef && 0x80 <= b1 <= 0xbf && 0x80 <= b2 <= 0xbf && 0x800 <= (((
            lead & 0x0f) as u32) << 12) | (((b1 & 0x3f) as u32) << 6) | ((b2 & 0x3f) as u32)
                < 0xd800) by (bit_vector)
                requires
                    c0 & 0x60 != 0,
                    lead == 0xE0u8 | ((c0 & 0x40) >> 5) | ((c1 & 0x40) >> 6),
                    b1 == 0x80u8 | (c0 & 0x3f),
                    b2 == 0x80u8 | (c1 & 0x3f),
            ;
        },
        None => {
            assert(0xe0 <= lead <= 0xef && 0x80 <= b1 <= 0xbf && 0x80 <= b2 <= 0xbf && 0x800 <= (((
            lead & 0x0f) as u32) << 12) | (((b1 & 0x3f) as u32) << 6) | ((b2 & 0x3f) as u32)
                < 0xd800) by (bit_vector)
                requires
                    lead == 0xE0u8 | ((c0 & 0x40) >> 5) | 0x04u8,
                    b1 == 0x80u8 | (c0 & 0x3f),
                    b2 == 0x80u8,
            ;
        },
    }
    assert(valid_first_scalar(unit));
    assert(pop_first_scalar(unit) =~= Seq::<u8>::empty());
    assert(valid_utf8(Seq::<u8>::empty()));
}

/// Input without control characters is packed into UTF-8.
pub proof fn lemma_encrypted_is_utf8(input: Seq<u8>)
    requires
        has_no_control_bytes(input),
    ensures
        valid_utf8(encrypted_bytes(packer(Standard), input)),
{
    let pack = packer(Standard);
    assert forall|i: int| 0 <= i < input.len() && i % 2 == 0 implies valid_utf8(
        #[trigger] unit_at(pack, input, i),
    ) by {
        assert(input[i] & 0x60 != 0);
        if i + 1 < input.len() {
            lemma_unit_is_utf8((input[i], Some(input[i + 1])));
        } else {
            lemma_unit_is_utf8((input[i], None));
        }
    }
    lemma_encrypted_valid_utf8(pack, input);
}

/// On two bytes this layout gives the unit that the layout of the same
/// name in `algorithm` gives, and it unpacks every unit with the flag clear
/// as that layout does.
pub proof fn lemma_agrees_on_pairs(c0: u8, c1: u8, encrypted: Seq<u8>)
    ensures
        standard_unit((c0, Some(c1))) == crate::algorithm::standard::standard_pair(c0, c1),
        !crate::algorithm::standard::standard_is_single(encrypted) ==> standard_pair(encrypted) == (
            crate::algorithm::standard::standard_pair_bytes(encrypted).0,
            Some(crate::algorithm::standard::standard_pair_bytes(encrypted).1),
        ),
{
}

} // verus!
