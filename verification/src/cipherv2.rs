//! Layouts that pack a pair into one character, whatever its width in
//! bytes. A last byte without a partner is packed with a zero byte, and a
//! zero byte in second place is dropped again on the way back.

use crate::cipher::bytepairs::{first_pair_len, BytePairs};
use crate::cipher::chars::{first_char, first_char_len, lemma_first_char_of_encoded, Chars};
use crate::error::CipherError;
use crate::sink::write_all;
use crate::text::encode_char;
use vstd::prelude::*;
use vstd::slice::slice_subrange;
use vstd::utf8::encode_utf8;

pub mod simple;

pub use simple::Simple;

verus! {

/// Two bytes; the second one is zero where the input had none.
pub type BytePair = (u8, u8);

/// The pair that the bytes of `input` start with, with a zero byte in place
/// of a second byte where there is none.
pub open spec fn padded_pair(input: Seq<u8>) -> BytePair
    recommends
        input.len() > 0,
{
    (
        input[0],
        if input.len() >= 2 {
            input[1]
        } else {
            0
        },
    )
}

/// The characters for `input`, one for every two bytes, rounded up.
pub open spec fn encrypted_chars(pack: spec_fn(BytePair) -> char, input: Seq<u8>) -> Seq<char>
    decreases input.len(),
{
    if input.len() == 0 {
        Seq::empty()
    } else {
        seq![pack(padded_pair(input))] + encrypted_chars(pack, input.skip(first_pair_len(input)))
    }
}

/// The bytes that an unpacked pair stands for: a zero byte in second place
/// stands for nothing.
pub open spec fn pair_bytes(pair: BytePair) -> Seq<u8> {
    if pair.1 == 0 {
        seq![pair.0]
    } else {
        seq![pair.0, pair.1]
    }
}

/// The bytes that the characters of `input` stand for, up to the first
/// place where `input` holds no character.
pub open spec fn decrypted_bytes(unpack: spec_fn(char) -> BytePair, input: Seq<u8>) -> Seq<u8>
    decreases input.len(),
{
    match first_char(input) {
        Ok(Some(c)) => pair_bytes(unpack(c)) + decrypted_bytes(
            unpack,
            input.skip(first_char_len(input)),
        ),
        _ => Seq::empty(),
    }
}

/// How unpacking `input` ends: well where it is made of characters from
/// end to end, and else with the failure of the first place that holds
/// none.
pub open spec fn decrypt_outcome(input: Seq<u8>) -> Result<(), CipherError>
    decreases input.len(),
{
    match first_char(input) {
        Ok(Some(_)) => decrypt_outcome(input.skip(first_char_len(input))),
        Ok(None) => Ok(()),
        Err(e) => Err(e),
    }
}

/// A layout that packs a pair into one character.
pub trait CipherV2 {
    /// The character that stands for a pair.
    spec fn encrypt_char_pair_spec(&self, pair: BytePair) -> char;

    /// The pair that a character stands for.
    spec fn decrypt_char_pair_spec(&self, encrypted: char) -> BytePair;

    /// Packs a pair into one character.
    fn encrypt_char_pair(&self, pair: BytePair) -> (encrypted: char)
        ensures
            encrypted == self.encrypt_char_pair_spec(pair),
    ;

    /// Unpacks one character.
    fn decrypt_char_pair(&self, encrypted: char) -> (pair: BytePair)
        ensures
            pair == self.decrypt_char_pair_spec(encrypted),
    ;

    /// Packs all of `reader` and puts the characters, as UTF-8, behind
    /// what `writer` holds.
    fn encrypt(&self, reader: &[u8], writer: &mut Vec<u8>) -> (result: Result<(), CipherError>)
        ensures
            result is Ok,
            final(writer)@ == old(writer)@ + encode_utf8(
                encrypted_chars(|pair: BytePair| self.encrypt_char_pair_spec(pair), reader@),
            ),
    {
        let mut buf: [u8; 4] = [0, 0, 0, 0];
        let mut pairs = BytePairs::new(reader);
        loop
            invariant
                old(writer)@ + encode_utf8(
                    encrypted_chars(|pair: BytePair| self.encrypt_char_pair_spec(pair), reader@),
                ) == writer@ + encode_utf8(
                    encrypted_chars(
                        |pair: BytePair| self.encrypt_char_pair_spec(pair),
                        pairs.remaining(),
                    ),
                ),
            decreases pairs.remaining().len(),
        {
            let ghost before = pairs.remaining();
            let ghost written = writer@;
            let byte_pair = match pairs.next() {
                Some(Ok((c0, Some(c1)))) => (c0, c1),
                Some(Ok((c0, None))) => (c0, 0),
                Some(Err(e)) => {
                    return Err(e);
                },
                None => {
                    assert(writer@ + encode_utf8(
                        encrypted_chars(
                            |pair: BytePair| self.encrypt_char_pair_spec(pair),
                            before,
                        ),
                    ) =~= writer@);
                    return Ok(());
                },
            };
            let encrypted = self.encrypt_char_pair(byte_pair);
            let len = encode_char(encrypted, &mut buf);
            write_all(writer, slice_subrange(buf.as_slice(), 0, len));
            proof {
                let chars = encrypted_chars(
                    |pair: BytePair| self.encrypt_char_pair_spec(pair),
                    before,
                );
                let rest = encrypted_chars(
                    |pair: BytePair| self.encrypt_char_pair_spec(pair),
                    pairs.remaining(),
                );
                assert(chars[0] == encrypted);
                assert(chars.drop_first() =~= rest);
                assert(written + encode_utf8(chars) =~= writer@ + encode_utf8(rest));
            }
        }
    }

    /// Unpacks the characters of `reader` and puts their bytes behind what
    /// `writer` holds. Fails at the first place where `reader` holds no
    /// character; what the characters before it stand for is written even
    /// then.
    fn decrypt(&self, reader: &[u8], writer: &mut Vec<u8>) -> (result: Result<(), CipherError>)
        ensures
            final(writer)@ == old(writer)@ + decrypted_bytes(
                |encrypted: char| self.decrypt_char_pair_spec(encrypted),
                reader@,
            ),
            result == decrypt_outcome(reader@),
    {
        let mut chars = Chars::new(reader);
        loop
            invariant
                old(writer)@ + decrypted_bytes(
                    |encrypted: char| self.decrypt_char_pair_spec(encrypted),
                    reader@,
                ) == writer@ + decrypted_bytes(
                    |encrypted: char| self.decrypt_char_pair_spec(encrypted),
                    chars.remaining(),
                ),
                decrypt_outcome(reader@) == decrypt_outcome(chars.remaining()),
            decreases chars.remaining().len(),
        {
            let ghost before = chars.remaining();
            let ghost written = writer@;
            let encrypted = match chars.next() {
                Some(Ok(c)) => c,
                Some(Err(e)) => {
                    assert(written + decrypted_bytes(
                        |encrypted: char| self.decrypt_char_pair_spec(encrypted),
                        before,
                    ) =~= written);
                    return Err(e);
                },
                None => {
                    assert(written + decrypted_bytes(
                        |encrypted: char| self.decrypt_char_pair_spec(encrypted),
                        before,
                    ) =~= written);
                    return Ok(());
                },
            };
            let pair = self.decrypt_char_pair(encrypted);
            if pair.1 == 0 {
                write_all(writer, [pair.0].as_slice());
            } else {
                write_all(writer, [pair.0, pair.1].as_slice());
            }
            assert(written + decrypted_bytes(
                |encrypted: char| self.decrypt_char_pair_spec(encrypted),
                before,
            ) =~= writer@ + decrypted_bytes(
                |encrypted: char| self.decrypt_char_pair_spec(encrypted),
                chars.remaining(),
            ));
        }
    }
}

/// Every byte is a seven-bit byte other than zero.
pub open spec fn is_text(input: Seq<u8>) -> bool {
    forall|i: int| 0 <= i < input.len() ==> 0 < #[trigger] input[i] < 128
}

/// `unpack` undoes `pack` on the pairs that text is made of, and the
/// characters that `pack` gives for them can be read back.
pub open spec fn inverts_on_text(
    unpack: spec_fn(char) -> BytePair,
    pack: spec_fn(BytePair) -> char,
) -> bool {
    forall|pair: BytePair|
        0 < pair.0 < 128 && pair.1 < 128 ==> unpack(#[trigger] pack(pair)) == pair && !(0x71
            <= pack(pair) as u32 <= 0x7f)
}

/// Text, packed and unpacked again, comes back as it was, and unpacking it
/// does not fail.
pub proof fn lemma_round_trip(
    pack: spec_fn(BytePair) -> char,
    unpack: spec_fn(char) -> BytePair,
    input: Seq<u8>,
)
    requires
        inverts_on_text(unpack, pack),
        is_text(input),
    ensures
        decrypted_bytes(unpack, encode_utf8(encrypted_chars(pack, input))) == input,
        decrypt_outcome(encode_utf8(encrypted_chars(pack, input))) == Ok::<(), CipherError>(()),
    decreases input.len(),
{
    let chars = encrypted_chars(pack, input);
    let packed = encode_utf8(chars);
    if input.len() == 0 {
        assert(packed =~= Seq::<u8>::empty());
        assert(decrypted_bytes(unpack, packed) =~= input);
    } else {
        let pair = padded_pair(input);
        let c = pack(pair);
        let rest_input = input.skip(first_pair_len(input));
        let rest = encode_utf8(encrypted_chars(pack, rest_input));
        assert(input[0] == pair.0);
        assert(unpack(c) == pair);
        assert(chars[0] == c);
        assert(chars.drop_first() =~= encrypted_chars(pack, rest_input));
        let form = encode_utf8(seq![c]);
        assert(seq![c].drop_first() =~= Seq::<char>::empty());
        assert(encode_utf8(seq![c].drop_first()) =~= Seq::<u8>::empty());
        assert(packed =~= form + rest);
        lemma_first_char_of_encoded(c, rest);
        assert((form + rest).skip(form.len() as int) =~= rest);
        assert forall|i: int| 0 <= i < rest_input.len() implies 0 < #[trigger] rest_input[i]
            < 128 by {
            assert(rest_input[i] == input[i + first_pair_len(input)]);
        }
        lemma_round_trip(pack, unpack, rest_input);
        if input.len() >= 2 {
            assert(input[1] == pair.1);
            assert(input =~= seq![pair.0, pair.1] + rest_input);
        } else {
            assert(input =~= seq![pair.0] + rest_input);
        }
        assert(decrypted_bytes(unpack, packed) =~= input);
    }
}

} // verus!
