//! The layout of four bytes.

use crate::algorithm::{
    encrypt_spec, lemma_string_round_trip, packer, unpacker, Algorithm, LOWER_BITS_MASK,
    SIG_BIT_MASK, SINGLE_CHAR_MASK,
};
use crate::error::CipherError;
use crate::transform::{
    decrypted_text, encrypted_text, gives_seven_bit, lemma_decrypted_is_utf8,
    lemma_encrypted_valid_utf8, unit_at,
};
use vstd::prelude::*;
use vstd::utf8::{
    encode_scalar, encode_utf8, is_ascii_chars, pop_first_scalar, valid_first_scalar, valid_utf8,
};

verus! {

/// The layout of four bytes. Its units are the UTF-8 forms of code points
/// from U+10000 to U+15FFF.
pub struct Extended {}

/// The unit for two bytes. The lead byte is `1111_0000`; the second byte is
/// `1001_00ab`, where `a` is the seventh bit of `c0` and `b` that of `c1`;
/// the last two bytes carry the six low bits of `c0` and of `c1`.
pub open spec fn extended_pair(c0: u8, c1: u8) -> Seq<u8> {
    seq![
        0xF0u8,
        0x90u8 | ((c0 & 0x40) >> 5) | ((c1 & 0x40) >> 6),
        0x80u8 | (c0 & 0x3f),
        0x80u8 | (c1 & 0x3f),
    ]
}

/// The unit for one byte. The lead byte is `1111_0000`; the second byte is
/// `1001_010a`, where `a` is the seventh bit of `c0`; the third byte carries
/// the six low bits of `c0`, the last one is the bare continuation pattern.
pub open spec fn extended_single(c0: u8) -> Seq<u8> {
    seq![0xF0u8, 0x90u8 | 0x04u8 | ((c0 & 0x40) >> 6), 0x80u8 | (c0 & 0x3f), 0x80u8]
}

/// The byte that a unit with the flag set stands for.
pub open spec fn extended_single_byte(encrypted: Seq<u8>) -> u8 {
    ((encrypted[1] & 1) << 6) | (encrypted[2] & 0x3f)
}

/// The two bytes that a unit with the flag clear stands for.
pub open spec fn extended_pair_bytes(encrypted: Seq<u8>) -> (u8, u8) {
    (
        ((encrypted[1] & 2) << 5) | (encrypted[2] & 0x3f),
        ((encrypted[1] & 1) << 6) | (encrypted[3] & 0x3f),
    )
}

/// Whether the flag for a unit of one byte is set.
pub open spec fn extended_is_single(encrypted: Seq<u8>) -> bool {
    encrypted[1] & 0x04 != 0
}

impl Extended {
    /// Packs two bytes into one unit.
    pub fn encrypt_char_pair(c0: u8, c1: u8) -> (encrypted: [u8; 4])
        ensures
            encrypted@ == extended_pair(c0, c1),
    {
        let mut encrypted_char: [u8; 4] = [0, 0, 0, 0];
        let sig_0: u8 = c0 & SIG_BIT_MASK;
        let sig_1: u8 = c1 & SIG_BIT_MASK;
        let low_0: u8 = c0 & LOWER_BITS_MASK;
        let low_1: u8 = c1 & LOWER_BITS_MASK;
        encrypted_char[0] = 240;
        encrypted_char[1] = 144 | (sig_0 >> 5) | (sig_1 >> 6);
        encrypted_char[2] = 128 | low_0;
        encrypted_char[3] = 128 | low_1;
        assert(encrypted_char@ =~= extended_pair(c0, c1));
        encrypted_char
    }

    /// Packs one byte into one unit, with the flag set.
    pub fn encrypt_single_char(c0: u8) -> (encrypted: [u8; 4])
        ensures
            encrypted@ == extended_single(c0),
    {
        let mut encrypted_char: [u8; 4] = [0, 0, 0, 0];
        let sig_0: u8 = c0 & SIG_BIT_MASK;
        let low_0: u8 = c0 & LOWER_BITS_MASK;
        encrypted_char[0] = 240;
        encrypted_char[1] = 144 | SINGLE_CHAR_MASK | (sig_0 >> 6);
        encrypted_char[2] = 128 | low_0;
        encrypted_char[3] = 128;
        assert(encrypted_char@ =~= extended_single(c0));
        encrypted_char
    }

    /// Unpacks a unit that holds one byte.
    pub fn decrypt_single_char(encrypted: [u8; 4]) -> (c0: u8)
        ensures
            c0 == extended_single_byte(encrypted@),
    {
        let sig_bit: u8 = (encrypted[1] & 1) << 6;
        let lower: u8 = encrypted[2] & LOWER_BITS_MASK;
        sig_bit | lower
    }

    /// Unpacks a unit that holds two bytes.
    pub fn decrypt_char_pair(encrypted: [u8; 4]) -> (pair: (u8, u8))
        ensures
            pair == extended_pair_bytes(encrypted@),
    {
        let c0_sig_bit: u8 = (encrypted[1] & 2) << 5;
        let c1_sig_bit: u8 = (encrypted[1] & 1) << 6;
        let c0_lower: u8 = encrypted[2] & LOWER_BITS_MASK;
        let c1_lower: u8 = encrypted[3] & LOWER_BITS_MASK;
        let c0: u8 = c0_sig_bit | c0_lower;
        let c1: u8 = c1_sig_bit | c1_lower;
        (c0, c1)
    }
}

impl Algorithm<4> for Extended {
    open spec fn encrypt_chars_spec(&self, c0: u8, c1: Option<u8>) -> Seq<u8> {
        match c1 {
            Some(c1) => extended_pair(c0, c1),
            None => extended_single(c0),
        }
    }

    open spec fn decrypt_chars_spec(&self, encrypted: Seq<u8>) -> (u8, Option<u8>) {
        if extended_is_single(encrypted) {
            (extended_single_byte(encrypted), None)
        } else {
            (extended_pair_bytes(encrypted).0, Some(extended_pair_bytes(encrypted).1))
        }
    }

    fn encrypt_chars(&self, c0: u8, c1: Option<u8>) -> (encrypted: [u8; 4]) {
        match c1 {
            Some(c1) => Self::encrypt_char_pair(c0, c1),
            None => Self::encrypt_single_char(c0),
        }
    }

    fn decrypt_chars(&self, encrypted: [u8; 4]) -> (pair: (u8, Option<u8>)) {
        if encrypted[1] & SINGLE_CHAR_MASK != 0 {
            (Self::decrypt_single_char(encrypted), None)
        } else {
            let (c0, c1) = Self::decrypt_char_pair(encrypted);
            (c0, Some(c1))
        }
    }

    proof fn lemma_unit_width(&self, c0: u8, c1: Option<u8>) {
    }

    proof fn lemma_round_trip(&self, c0: u8, c1: Option<u8>) {
        match c1 {
            Some(c1) => {
                let second = 0x90u8 | ((c0 & 0x40) >> 5) | ((c1 & 0x40) >> 6);
                let b2 = 0x80u8 | (c0 & 0x3f);
                let b3 = 0x80u8 | (c1 & 0x3f);
                assert(second & 0x04 == 0 && ((second & 2) << 5) | (b2 & 0x3f) == c0 & 0x7f && ((
                second & 1) << 6) | (b3 & 0x3f) == c1 & 0x7f) by (bit_vector)
                    requires
                        second == 0x90u8 | ((c0 & 0x40) >> 5) | ((c1 & 0x40) >> 6),
                        b2 == 0x80u8 | (c0 & 0x3f),
                        b3 == 0x80u8 | (c1 & 0x3f),
                ;
            },
            None => {
                let second = 0x90u8 | 0x04u8 | ((c0 & 0x40) >> 6);
                let b2 = 0x80u8 | (c0 & 0x3f);
                assert(second & 0x04 != 0 && ((second & 1) << 6) | (b2 & 0x3f) == c0 & 0x7f)
                    by (bit_vector)
                    requires
                        second == 0x90u8 | 0x04u8 | ((c0 & 0x40) >> 6),
                        b2 == 0x80u8 | (c0 & 0x3f),
                ;
            },
        }
    }
}

/// The code point of the unit for two bytes: bit 16 is set, bit 13 is the
/// seventh bit of `c0`, bit 12 that of `c1`, bits 6 to 11 are the six low
/// bits of `c0`, and bits 0 to 5 those of `c1`.
pub open spec fn extended_pair_code_point(c0: u8, c1: u8) -> u32 {
    0x10000u32 | (((c0 & 0x40) as u32) << 7) | (((c1 & 0x40) as u32) << 6) | (((c0
        & 0x3f) as u32) << 6) | ((c1 & 0x3f) as u32)
}

/// The code point of the unit for one byte: bits 16 and 14 are set, bit 12
/// is the seventh bit of `c0`, and bits 6 to 11 are the six low bits of
/// `c0`.
pub open spec fn extended_single_code_point(c0: u8) -> u32 {
    0x14000u32 | (((c0 & 0x40) as u32) << 6) | (((c0 & 0x3f) as u32) << 6)
}

/// The unit for two bytes is the UTF-8 form of one character, between
/// U+10000 and U+13FFF.
pub proof fn lemma_pair_is_code_point(c0: u8, c1: u8)
    ensures
        0x10000 <= extended_pair_code_point(c0, c1) <= 0x13fff,
        extended_pair(c0, c1) == encode_utf8(seq![extended_pair_code_point(c0, c1) as char]),
{
    let cp = extended_pair_code_point(c0, c1);
    let unit = extended_pair(c0, c1);
    let b0 = unit[0];
    let b1 = unit[1];
    let b2 = unit[2];
    let b3 = unit[3];
    assert(0x10000 <= cp <= 0x13fff && b0 == 0xF0u8 | ((cp >> 18) & 0x07) as u8 && b1
        == 0x80u8 | ((cp >> 12) & 0x3f) as u8 && b2 == 0x80u8 | ((cp >> 6) & 0x3f) as u8
        && b3 == 0x80u8 | (cp & 0x3f) as u8) by (bit_vector)
        requires
            cp == 0x10000u32 | (((c0 & 0x40) as u32) << 7) | (((c1 & 0x40) as u32) << 6) | (((c0
                & 0x3f) as u32) << 6) | ((c1 & 0x3f) as u32),
            b0 == 0xF0u8,
            b1 == 0x90u8 | ((c0 & 0x40) >> 5) | ((c1 & 0x40) >> 6),
            b2 == 0x80u8 | (c0 & 0x3f),
            b3 == 0x80u8 | (c1 & 0x3f),
    ;
    lemma_code_point_form(cp, unit);
}

/// The unit for one byte is the UTF-8 form of one character, between
/// U+14000 and U+15FFF.
pub proof fn lemma_single_is_code_point(c0: u8)
    ensures
        0x14000 <= extended_single_code_point(c0) <= 0x15fff,
        extended_single(c0) == encode_utf8(seq![extended_single_code_point(c0) as char]),
{
    let cp = extended_single_code_point(c0);
    let unit = extended_single(c0);
    let b0 = unit[0];
    let b1 = unit[1];
    let b2 = unit[2];
    let b3 = unit[3];
    assert(0x14000 <= cp <= 0x15fff && b0 == 0xF0u8 | ((cp >> 18) & 0x07) as u8 && b1
        == 0x80u8 | ((cp >> 12) & 0x3f) as u8 && b2 == 0x80u8 | ((cp >> 6) & 0x3f) as u8
        && b3 == 0x80u8 | (cp & 0x3f) as u8) by (bit_vector)
        requires
            cp == 0x14000u32 | (((c0 & 0x40) as u32) << 6) | (((c0 & 0x3f) as u32) << 6),
            b0 == 0xF0u8,
            b1 == 0x90u8 | 0x04u8 | ((c0 & 0x40) >> 6),
            b2 == 0x80u8 | (c0 & 0x3f),
            b3 == 0x80u8,
    ;
    lemma_code_point_form(cp, unit);
}

/// Four bytes that are made from a code point as UTF-8 makes them are the
/// UTF-8 form of the character with that code point.
proof fn lemma_code_point_form(cp: u32, unit: Seq<u8>)
    requires
        0x10000 <= cp <= 0x10ffff,
        unit.len() == 4,
        unit[0] == 0xF0u8 | ((cp >> 18) & 0x07) as u8,
        unit[1] == 0x80u8 | ((cp >> 12) & 0x3f) as u8,
        unit[2] == 0x80u8 | ((cp >> 6) & 0x3f) as u8,
        unit[3] == 0x80u8 | (cp & 0x3f) as u8,
    ensures
        unit == encode_utf8(seq![cp as char]),
{
    let text = seq![cp as char];
    assert((cp as char) as u32 == cp);
    assert(text.drop_first() =~= Seq::<char>::empty());
    assert(encode_utf8(text.drop_first()) =~= Seq::<u8>::empty());
    assert(unit =~= encode_scalar(cp));
    assert(encode_utf8(text) =~= encode_scalar(cp));
}

/// The unit for two bytes is UTF-8.
pub proof fn lemma_pair_is_utf8(c0: u8, c1: u8)
    ensures
        valid_utf8(extended_pair(c0, c1)),
{
    let unit = extended_pair(c0, c1);
    let lead = unit[0];
    let b1 = unit[1];
    let b2 = unit[2];
    let b3 = unit[3];
    assert(0xf0 <= lead <= 0xf7 && 0x80 <= b1 <= 0xbf && 0x80 <= b2 <= 0xbf && 0x80 <= b3 <= 0xbf
        && 0x10000 <= (((lead & 0x07) as u32) << 18) | (((b1 & 0x3f) as u32) << 12) | (((b2
        & 0x3f) as u32) << 6) | ((b3 & 0x3f) as u32) <= 0x10ffff) by (bit_vector)
        requires
            lead == 0xF0u8,
            b1 == 0x90u8 | ((c0 & 0x40) >> 5) | ((c1 & 0x40) >> 6),
            b2 == 0x80u8 | (c0 & 0x3f),
            b3 == 0x80u8 | (c1 & 0x3f),
    ;
    assert(valid_first_scalar(unit));
    assert(pop_first_scalar(unit) =~= Seq::<u8>::empty());
    assert(valid_utf8(Seq::<u8>::empty()));
}

/// The unit for one byte is UTF-8.
pub proof fn lemma_single_is_utf8(c0: u8)
    ensures
        valid_utf8(extended_single(c0)),
{
    let unit = extended_single(c0);
    let lead = unit[0];
    let b1 = unit[1];
    let b2 = unit[2];
    let b3 = unit[3];
    assert(0xf0 <= lead <= 0xf7 && 0x80 <= b1 <= 0xbf && 0x80 <= b2 <= 0xbf && 0x80 <= b3 <= 0xbf
        && 0x10000 <= (((lead & 0x07) as u32) << 18) | (((b1 & 0x3f) as u32) << 12) | (((b2
        & 0x3f) as u32) << 6) | ((b3 & 0x3f) as u32) <= 0x10ffff) by (bit_vector)
        requires
            lead == 0xF0u8,
            b1 == 0x90u8 | 0x04u8 | ((c0 & 0x40) >> 6),
            b2 == 0x80u8 | (c0 & 0x3f),
            b3 == 0x80u8,
    ;
    assert(valid_first_scalar(unit));
    assert(pop_first_scalar(unit) =~= Seq::<u8>::empty());
    assert(valid_utf8(Seq::<u8>::empty()));
}

/// Every input is packed into UTF-8.
pub proof fn lemma_encrypted_is_utf8(input: Seq<u8>)
    ensures
        valid_utf8(encrypt_spec(Extended {  }, input)),
{
    let pack = packer(Extended {  });
    assert forall|i: int| 0 <= i < input.len() && i % 2 == 0 implies valid_utf8(
        #[trigger] unit_at(pack, input, i),
    ) by {
        if i + 1 < input.len() {
            lemma_pair_is_utf8(input[i], input[i + 1]);
        } else {
            lemma_single_is_utf8(input[i]);
        }
    }
    lemma_encrypted_valid_utf8(pack, input);
}

/// Every text is packed into a string.
pub proof fn lemma_encrypted_text_is_ok(text: Seq<char>)
    ensures
        encrypted_text(packer(Extended {  }), text) is Ok,
{
    lemma_encrypted_is_utf8(encode_utf8(text));
}

/// ASCII text is packed into a string, and unpacking that string gives the
/// text back.
pub proof fn lemma_ascii_text_round_trip(text: Seq<char>)
    requires
        is_ascii_chars(text),
    ensures
        encrypted_text(packer(Extended {  }), text) is Ok,
        decrypted_text(
            unpacker(Extended {  }),
            4,
            encrypted_text(packer(Extended {  }), text)->Ok_0,
        ) == Ok::<Seq<char>, CipherError>(text),
{
    lemma_encrypted_is_utf8(vstd::utf8::encode_utf8(text));
    lemma_string_round_trip(Extended {  }, text);
}

/// The eighth bit of a byte has no part in its unit.
pub proof fn lemma_eighth_bit_is_dropped(c0: u8, c1: Option<u8>)
    ensures
        (Extended {  }).encrypt_chars_spec(c0, c1) == (Extended {  }).encrypt_chars_spec(
            c0 & 0x7f,
            match c1 {
                Some(c1) => Some(c1 & 0x7f),
                None => None,
            },
        ),
{
    assert((c0 & 0x7f) & 0x40 == c0 & 0x40 && (c0 & 0x7f) & 0x3f == c0 & 0x3f) by (bit_vector);
    match c1 {
        Some(c1) => {
            assert((c1 & 0x7f) & 0x40 == c1 & 0x40 && (c1 & 0x7f) & 0x3f == c1 & 0x3f)
                by (bit_vector);
        },
        None => {},
    }
}

/// Whatever unit is unpacked, the bytes that come out have the eighth bit
/// clear.
pub proof fn lemma_unpacks_to_seven_bit()
    ensures
        gives_seven_bit(unpacker(Extended {  })),
{
    assert forall|encrypted: Seq<u8>|
        {
            let pair = #[trigger] unpacker(Extended {  })(encrypted);
            pair.0 < 128 && (pair.1 matches Some(c1) ==> c1 < 128)
        } by {
        let lead = encrypted[1];
        let e1 = encrypted[2];
        let e2 = encrypted[3];
        assert(((lead & 1) << 6) | (e1 & 0x3f) < 128 && ((lead & 2) << 5) | (e1 & 0x3f) < 128 && ((
        lead & 1) << 6) | (e2 & 0x3f) < 128) by (bit_vector);
    }
}

/// Unpacking a string fails only where it ends inside a unit: what its
/// units stand for is always UTF-8.
pub proof fn lemma_decrypted_text_is_utf8(text: Seq<char>)
    ensures
        decrypted_text(unpacker(Extended {  }), 4, text) != Err::<Seq<char>, CipherError>(
            CipherError::InvalidUtf8Output,
        ),
{
    lemma_unpacks_to_seven_bit();
    lemma_decrypted_is_utf8(unpacker(Extended {  }), 4, vstd::utf8::encode_utf8(text));
}

} // verus!
