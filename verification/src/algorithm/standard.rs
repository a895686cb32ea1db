//! The layout of three bytes.

use crate::algorithm::{
    encrypt_spec, lemma_string_round_trip, packer, unpacker, Algorithm, LOWER_BITS_MASK,
    SIG_BIT_MASK, SINGLE_CHAR_MASK,
};
use crate::error::CipherError;
use crate::transform::{
    announces_own_length, decrypted_text, encrypted_text, every_unit_is_utf8, gives_seven_bit,
    lemma_decrypted_is_utf8, lemma_encrypted_valid_utf8_iff, unit_at, units_announce_length,
};
use vstd::prelude::*;
use vstd::utf8::{
    encode_scalar, encode_utf8, is_ascii_chars, is_ascii_chars_encode_utf8, pop_first_scalar,
    valid_first_scalar, valid_utf8,
};

verus! {

/// The layout of three bytes. Its units are the UTF-8 forms of code points
/// from U+0800 to U+5FFF; a pair whose first byte is a control character
/// gets three bytes that are the form of no code point.
pub struct Standard {}

/// The unit for two bytes. The lead byte is `1110_00ab`, where `a` is the
/// seventh bit of `c0` and `b` that of `c1`; the two continuation bytes carry
/// the six low bits of `c0` and of `c1`.
pub open spec fn standard_pair(c0: u8, c1: u8) -> Seq<u8> {
    seq![
        0xE0u8 | ((c0 & 0x40) >> 5) | ((c1 & 0x40) >> 6),
        0x80u8 | (c0 & 0x3f),
        0x80u8 | (c1 & 0x3f),
    ]
}

/// The unit for one byte. The lead byte is `1110_010a`, where `a` is the
/// seventh bit of `c0`; the first continuation byte carries the six low bits
/// of `c0`, the second one is the bare continuation pattern.
pub open spec fn standard_single(c0: u8) -> Seq<u8> {
    seq![0xE0u8 | 0x04u8 | ((c0 & 0x40) >> 6), 0x80u8 | (c0 & 0x3f), 0x80u8]
}

/// The byte that a unit with the flag set stands for.
pub open spec fn standard_single_byte(encrypted: Seq<u8>) -> u8 {
    ((encrypted[0] & 1) << 6) | (encrypted[1] & 0x3f)
}

/// The two bytes that a unit with the flag clear stands for.
pub open spec fn standard_pair_bytes(encrypted: Seq<u8>) -> (u8, u8) {
    (
        ((encrypted[0] & 2) << 5) | (encrypted[1] & 0x3f),
        ((encrypted[0] & 1) << 6) | (encrypted[2] & 0x3f),
    )
}

/// Whether the flag for a unit of one byte is set.
pub open spec fn standard_is_single(encrypted: Seq<u8>) -> bool {
    encrypted[0] & 0x04 != 0
}

impl Standard {
    /// Packs two bytes into one unit.
    pub fn encrypt_char_pair(c0: u8, c1: u8) -> (encrypted: [u8; 3])
        ensures
            encrypted@ == standard_pair(c0, c1),
    {
        let mut encrypted_char: [u8; 3] = [0, 0, 0];
        let sig_0: u8 = c0 & SIG_BIT_MASK;
        let sig_1: u8 = c1 & SIG_BIT_MASK;
        let low_0: u8 = c0 & LOWER_BITS_MASK;
        let low_1: u8 = c1 & LOWER_BITS_MASK;
        encrypted_char[0] = 224 | (sig_0 >> 5) | (sig_1 >> 6);
        encrypted_char[1] = 128 | low_0;
        encrypted_char[2] = 128 | low_1;
        assert(encrypted_char@ =~= standard_pair(c0, c1));
        encrypted_char
    }

    /// Packs one byte into one unit, with the flag set.
    pub fn encrypt_single_char(c0: u8) -> (encrypted: [u8; 3])
        ensures
            encrypted@ == standard_single(c0),
    {
        let mut encrypted_char: [u8; 3] = [0, 0, 0];
        let sig_0: u8 = c0 & SIG_BIT_MASK;
        let low_0: u8 = c0 & LOWER_BITS_MASK;
        encrypted_char[0] = 224 | SINGLE_CHAR_MASK | (sig_0 >> 6);
        encrypted_char[1] = 128 | low_0;
        encrypted_char[2] = 128;
        assert(encrypted_char@ =~= standard_single(c0));
        encrypted_char
    }

    /// Unpacks a unit that holds one byte.
    pub fn decrypt_single_char(encrypted: [u8; 3]) -> (c0: u8)
        ensures
            c0 == standard_single_byte(encrypted@),
    {
        let sig_bit: u8 = (encrypted[0] & 1) << 6;
        let lower: u8 = encrypted[1] & LOWER_BITS_MASK;
        sig_bit | lower
    }

    /// Unpacks a unit that holds two bytes.
    pub fn decrypt_char_pair(encrypted: [u8; 3]) -> (pair: (u8, u8))
        ensures
            pair == standard_pair_bytes(encrypted@),
    {
        let c0_sig_bit: u8 = (encrypted[0] & 2) << 5;
        let c1_sig_bit: u8 = (encrypted[0] & 1) << 6;
        let c0_lower: u8 = encrypted[1] & LOWER_BITS_MASK;
        let c1_lower: u8 = encrypted[2] & LOWER_BITS_MASK;
        let c0: u8 = c0_sig_bit | c0_lower;
        let c1: u8 = c1_sig_bit | c1_lower;
        (c0, c1)
    }
}

impl Algorithm<3> for Standard {
    open spec fn encrypt_chars_spec(&self, c0: u8, c1: Option<u8>) -> Seq<u8> {
        match c1 {
            Some(c1) => standard_pair(c0, c1),
            None => standard_single(c0),
        }
    }

    open spec fn decrypt_chars_spec(&self, encrypted: Seq<u8>) -> (u8, Option<u8>) {
        if standard_is_single(encrypted) {
            (standard_single_byte(encrypted), None)
        } else {
            (standard_pair_bytes(encrypted).0, Some(standard_pair_bytes(encrypted).1))
        }
    }

    fn encrypt_chars(&self, c0: u8, c1: Option<u8>) -> (encrypted: [u8; 3]) {
        match c1 {
            Some(c1) => Self::encrypt_char_pair(c0, c1),
            None => Self::encrypt_single_char(c0),
        }
    }

    fn decrypt_chars(&self, encrypted: [u8; 3]) -> (pair: (u8, Option<u8>)) {
        if encrypted[0] & SINGLE_CHAR_MASK != 0 {
            (Self::decrypt_single_char(encrypted), None)
        } else {
            let (c0, c1) = Self::decrypt_char_pair(encrypted);
            (c0, Some(c1))
        }
    }

    proof fn lemma_unit_width(&self, c0: u8, c1: Option<u8>) {
    }

    proof fn lemma_round_trip(&self, c0: u8, c1: Option<u8>) {
        match c1 {
            Some(c1) => {
                let lead = 0xE0u8 | ((c0 & 0x40) >> 5) | ((c1 & 0x40) >> 6);
                let b1 = 0x80u8 | (c0 & 0x3f);
                let b2 = 0x80u8 | (c1 & 0x3f);
                assert(lead & 0x04 == 0 && ((lead & 2) << 5) | (b1 & 0x3f) == c0 & 0x7f && ((lead
                    & 1) << 6) | (b2 & 0x3f) == c1 & 0x7f) by (bit_vector)
                    requires
                        lead == 0xE0u8 | ((c0 & 0x40) >> 5) | ((c1 & 0x40) >> 6),
                        b1 == 0x80u8 | (c0 & 0x3f),
                        b2 == 0x80u8 | (c1 & 0x3f),
                ;
            },
            None => {
                let lead = 0xE0u8 | 0x04u8 | ((c0 & 0x40) >> 6);
                let b1 = 0x80u8 | (c0 & 0x3f);
                assert(lead & 0x04 != 0 && ((lead & 1) << 6) | (b1 & 0x3f) == c0 & 0x7f)
                    by (bit_vector)
                    requires
                        lead == 0xE0u8 | 0x04u8 | ((c0 & 0x40) >> 6),
                        b1 == 0x80u8 | (c0 & 0x3f),
                ;
            },
        }
    }
}

/// The code point of the unit for two bytes: bit 13 is the seventh bit of
/// `c0`, bit 12 that of `c1`, bits 6 to 11 are the six low bits of `c0`,
/// and bits 0 to 5 those of `c1`.
pub open spec fn standard_pair_code_point(c0: u8, c1: u8) -> u32 {
    (((c0 & 0x40) as u32) << 7) | (((c1 & 0x40) as u32) << 6) | (((c0 & 0x3f) as u32) << 6) | ((c1
        & 0x3f) as u32)
}

/// The code point of the unit for one byte: bit 14 is set, bit 12 is the
/// seventh bit of `c0`, and bits 6 to 11 are the six low bits of `c0`.
pub open spec fn standard_single_code_point(c0: u8) -> u32 {
    0x4000u32 | (((c0 & 0x40) as u32) << 6) | (((c0 & 0x3f) as u32) << 6)
}

/// The unit for two bytes, the first of them no control character, is the
/// UTF-8 form of one character, between U+0800 and U+3FFF.
pub proof fn lemma_pair_is_code_point(c0: u8, c1: u8)
    requires
        c0 & 0x60 != 0,
    ensures
        0x800 <= standard_pair_code_point(c0, c1) <= 0x3fff,
        standard_pair(c0, c1) == encode_utf8(seq![standard_pair_code_point(c0, c1) as char]),
{
    let cp = standard_pair_code_point(c0, c1);
    let unit = standard_pair(c0, c1);
    let b0 = unit[0];
    let b1 = unit[1];
    let b2 = unit[2];
    assert(0x800 <= cp <= 0x3fff && b0 == 0xE0u8 | ((cp >> 12) & 0x0f) as u8 && b1
        == 0x80u8 | ((cp >> 6) & 0x3f) as u8 && b2 == 0x80u8 | (cp & 0x3f) as u8)
        by (bit_vector)
        requires
            c0 & 0x60 != 0,
            cp == (((c0 & 0x40) as u32) << 7) | (((c1 & 0x40) as u32) << 6) | (((c0
                & 0x3f) as u32) << 6) | ((c1 & 0x3f) as u32),
            b0 == 0xE0u8 | ((c0 & 0x40) >> 5) | ((c1 & 0x40) >> 6),
            b1 == 0x80u8 | (c0 & 0x3f),
            b2 == 0x80u8 | (c1 & 0x3f),
    ;
    lemma_code_point_form(cp, unit);
}

/// The unit for one byte is the UTF-8 form of one character, between
/// U+4000 and U+5FFF.
pub proof fn lemma_single_is_code_point(c0: u8)
    ensures
        0x4000 <= standard_single_code_point(c0) <= 0x5fff,
        standard_single(c0) == encode_utf8(seq![standard_single_code_point(c0) as char]),
{
    let cp = standard_single_code_point(c0);
    let unit = standard_single(c0);
    let b0 = unit[0];
    let b1 = unit[1];
    let b2 = unit[2];
    assert(0x4000 <= cp <= 0x5fff && b0 == 0xE0u8 | ((cp >> 12) & 0x0f) as u8 && b1
        == 0x80u8 | ((cp >> 6) & 0x3f) as u8 && b2 == 0x80u8 | (cp & 0x3f) as u8)
        by (bit_vector)
        requires
            cp == 0x4000u32 | (((c0 & 0x40) as u32) << 6) | (((c0 & 0x3f) as u32) << 6),
            b0 == 0xE0u8 | 0x04u8 | ((c0 & 0x40) >> 6),
            b1 == 0x80u8 | (c0 & 0x3f),
            b2 == 0x80u8,
    ;
    lemma_code_point_form(cp, unit);
}

/// Three bytes that are made from a code point as UTF-8 makes them are the
/// UTF-8 form of the character with that code point.
proof fn lemma_code_point_form(cp: u32, unit: Seq<u8>)
    requires
        0x800 <= cp <= 0x7fff,
        unit.len() == 3,
        unit[0] == 0xE0u8 | ((cp >> 12) & 0x0f) as u8,
        unit[1] == 0x80u8 | ((cp >> 6) & 0x3f) as u8,
        unit[2] == 0x80u8 | (cp & 0x3f) as u8,
    ensures
        unit == encode_utf8(seq![cp as char]),
{
    let text = seq![cp as char];
    assert((cp as char) as u32 == cp);
    assert(text.drop_first() =~= Seq::<char>::empty());
    assert(encode_utf8(text.drop_first()) =~= Seq::<u8>::empty());
    assert(unit =~= encode_scalar(cp));
    assert(encode_utf8(text) =~= encode_scalar(cp));
}

/// None of the characters lies outside ASCII or below the space.
pub open spec fn is_plain_text(text: Seq<char>) -> bool {
    forall|i: int| 0 <= i < text.len() ==> ' ' <= #[trigger] text[i] <= '\u{7f}'
}

/// No pair of `input` has a control character in first place and a byte
/// with the seventh bit clear in second place, the eighth bit of each left
/// aside.
pub open spec fn packs_to_utf8(input: Seq<u8>) -> bool {
    forall|i: int|
        0 <= i && i + 1 < input.len() && i % 2 == 0 ==> #[trigger] input[i] & 0x60 != 0 || input[i
            + 1] & 0x40 != 0
}

/// The unit for two bytes is UTF-8 but where the first of them is a control
/// character and the second has its seventh bit clear: there the unit has
/// the form of a code point below U+0800, which three bytes may not hold.
pub proof fn lemma_pair_is_utf8(c0: u8, c1: u8)
    ensures
        valid_utf8(standard_pair(c0, c1)) <==> c0 & 0x60 != 0 || c1 & 0x40 != 0,
{
    let unit = standard_pair(c0, c1);
    let lead = unit[0];
    let b1 = unit[1];
    let b2 = unit[2];
    let cp = (((lead & 0x0f) as u32) << 12) | (((b1 & 0x3f) as u32) << 6) | ((b2 & 0x3f) as u32);
    assert(0xe0 <= lead <= 0xef && 0x80 <= b1 <= 0xbf && 0x80 <= b2 <= 0xbf && cp < 0xd800 && (0x800
        <= cp <==> c0 & 0x60 != 0 || c1 & 0x40 != 0)) by (bit_vector)
        requires
            lead == 0xE0u8 | ((c0 & 0x40) >> 5) | ((c1 & 0x40) >> 6),
            b1 == 0x80u8 | (c0 & 0x3f),
            b2 == 0x80u8 | (c1 & 0x3f),
            cp == (((lead & 0x0f) as u32) << 12) | (((b1 & 0x3f) as u32) << 6) | ((b2
                & 0x3f) as u32),
    ;
    assert(valid_first_scalar(unit) <==> 0x800 <= cp);
    assert(pop_first_scalar(unit) =~= Seq::<u8>::empty());
    assert(valid_utf8(Seq::<u8>::empty()));
}

/// The unit for one byte is UTF-8.
pub proof fn lemma_single_is_utf8(c0: u8)
    ensures
        valid_utf8(standard_single(c0)),
{
    let unit = standard_single(c0);
    let lead = unit[0];
    let b1 = unit[1];
    let b2 = unit[2];
    assert(0xe0 <= lead <= 0xef && 0x80 <= b1 <= 0xbf && 0x80 <= b2 <= 0xbf && 0x800 <= (((lead
        & 0x0f) as u32) << 12) | (((b1 & 0x3f) as u32) << 6) | ((b2 & 0x3f) as u32) < 0xd800)
        by (bit_vector)
        requires
            lead == 0xE0u8 | 0x04u8 | ((c0 & 0x40) >> 6),
            b1 == 0x80u8 | (c0 & 0x3f),
            b2 == 0x80u8,
    ;
    assert(valid_first_scalar(unit));
    assert(pop_first_scalar(unit) =~= Seq::<u8>::empty());
    assert(valid_utf8(Seq::<u8>::empty()));
}

/// Every unit starts with the lead byte of a character of three bytes.
pub proof fn lemma_units_announce_length()
    ensures
        units_announce_length(packer(Standard {  })),
{
    assert forall|c0: u8, c1: Option<u8>|
        announces_own_length(#[trigger] packer(Standard {  })(c0, c1)) by {
        let unit = (Standard {  }).encrypt_chars_spec(c0, c1);
        let lead = unit[0];
        match c1 {
            Some(c1) => {
                assert(0xe0 <= lead <= 0xef) by (bit_vector)
                    requires
                        lead == 0xE0u8 | ((c0 & 0x40) >> 5) | ((c1 & 0x40) >> 6),
                ;
            },
            None => {
                assert(0xe0 <= lead <= 0xef) by (bit_vector)
                    requires
                        lead == 0xE0u8 | 0x04u8 | ((c0 & 0x40) >> 6),
                ;
            },
        }
    }
}

/// What an input is packed into is UTF-8 but where one of its pairs has a
/// control character in first place and a byte with the seventh bit clear
/// in second place.
pub proof fn lemma_encrypted_is_utf8(input: Seq<u8>)
    ensures
        valid_utf8(encrypt_spec(Standard {  }, input)) <==> packs_to_utf8(input),
{
    let pack = packer(Standard {  });
    lemma_units_announce_length();
    lemma_encrypted_valid_utf8_iff(pack, input);
    if packs_to_utf8(input) {
        assert forall|i: int| 0 <= i < input.len() && i % 2 == 0 implies valid_utf8(
            #[trigger] unit_at(pack, input, i),
        ) by {
            if i + 1 < input.len() {
                assert(input[i] & 0x60 != 0 || input[i + 1] & 0x40 != 0);
                lemma_pair_is_utf8(input[i], input[i + 1]);
            } else {
                lemma_single_is_utf8(input[i]);
            }
        }
    }
    if every_unit_is_utf8(pack, input) {
        assert forall|i: int| 0 <= i && i + 1 < input.len() && i % 2 == 0 implies #[trigger] input[i]
            & 0x60 != 0 || input[i + 1] & 0x40 != 0 by {
            assert(valid_utf8(unit_at(pack, input, i)));
            lemma_pair_is_utf8(input[i], input[i + 1]);
        }
    }
}

/// Text is packed into a string but where one of its pairs of bytes has a
/// control character in first place and a byte with the seventh bit clear
/// in second place.
pub proof fn lemma_encrypted_text_is_ok(text: Seq<char>)
    ensures
        encrypted_text(packer(Standard {  }), text) is Ok <==> packs_to_utf8(encode_utf8(text)),
{
    lemma_encrypted_is_utf8(encode_utf8(text));
}

/// Text of ASCII characters from the space on is packed into a string, and
/// unpacking that string gives the text back.
pub proof fn lemma_plain_text_round_trip(text: Seq<char>)
    requires
        is_plain_text(text),
    ensures
        encrypted_text(packer(Standard {  }), text) is Ok,
        decrypted_text(
            unpacker(Standard {  }),
            3,
            encrypted_text(packer(Standard {  }), text)->Ok_0,
        ) == Ok::<Seq<char>, CipherError>(text),
{
    assert(is_ascii_chars(text));
    is_ascii_chars_encode_utf8(text);
    let input = encode_utf8(text);
    assert forall|i: int| 0 <= i && i + 1 < input.len() && i % 2 == 0 implies #[trigger] input[i]
        & 0x60 != 0 || input[i + 1] & 0x40 != 0 by {
        let b = input[i];
        assert(text[i] as u8 == b);
        assert(0x20 <= b < 0x80 ==> b & 0x60 != 0) by (bit_vector);
    }
    lemma_encrypted_is_utf8(input);
    lemma_string_round_trip(Standard {  }, text);
}

/// The eighth bit of a byte has no part in its unit.
pub proof fn lemma_eighth_bit_is_dropped(c0: u8, c1: Option<u8>)
    ensures
        (Standard {  }).encrypt_chars_spec(c0, c1) == (Standard {  }).encrypt_chars_spec(
            c0 & 0x7f,
            match c1 {
                Some(c1) => Some(c1 & 0x7f),
                None => None,
            },
        ),
{
    assert((c0 & 0x7f) & 0x40 == c0 & 0x40 && (c0 & 0x7f) & 0x3f == c0 & 0x3f) by (bit_vector);
    match c1 {
        Some(c1) => {
            assert((c1 & 0x7f) & 0x40 == c1 & 0x40 && (c1 & 0x7f) & 0x3f == c1 & 0x3f)
                by (bit_vector);
        },
        None => {},
    }
}

/// Whatever unit is unpacked, the bytes that come out have the eighth bit
/// clear.
pub proof fn lemma_unpacks_to_seven_bit()
    ensures
        gives_seven_bit(unpacker(Standard {  })),
{
    assert forall|encrypted: Seq<u8>|
        {
            let pair = #[trigger] unpacker(Standard {  })(encrypted);
            pair.0 < 128 && (pair.1 matches Some(c1) ==> c1 < 128)
        } by {
        let lead = encrypted[0];
        let e1 = encrypted[1];
        let e2 = encrypted[2];
        assert(((lead & 1) << 6) | (e1 & 0x3f) < 128 && ((lead & 2) << 5) | (e1 & 0x3f) < 128 && ((
        lead & 1) << 6) | (e2 & 0x3f) < 128) by (bit_vector);
    }
}

/// Unpacking a string fails only where it ends inside a unit: what its
/// units stand for is always UTF-8.
pub proof fn lemma_decrypted_text_is_utf8(text: Seq<char>)
    ensures
        decrypted_text(unpacker(Standard {  }), 3, text) != Err::<Seq<char>, CipherError>(
            CipherError::InvalidUtf8Output,
        ),
{
    lemma_unpacks_to_seven_bit();
    lemma_decrypted_is_utf8(unpacker(Standard {  }), 3, vstd::utf8::encode_utf8(text));
}

} // verus!
