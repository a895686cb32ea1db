//! A byte source, read as characters.

use crate::error::CipherError;
use crate::source::ByteSource;
use core::str::{from_utf8, FromStr};
use vstd::prelude::*;
use vstd::slice::slice_subrange;
use vstd::utf8::{
    char_is_scalar, decode_utf8, encode_scalar, encode_utf8, encode_utf8_decode_utf8,
    encode_utf8_valid_utf8, has_width_1_encoding, has_width_2_encoding, has_width_3_encoding,
    length_of_first_scalar, pop_first_scalar, valid_first_scalar, valid_utf8,
};

verus! {

/// The number of bytes of a character that starts with `first_byte`, or
/// nothing where none starts with it.
pub open spec fn char_len_spec(first_byte: u8) -> Option<usize> {
    if first_byte <= 0b0111_0000 {
        Some(1)
    } else if 0b1000_0000 <= first_byte <= 0b1101_1111 {
        Some(2)
    } else if 0b1110_0000 <= first_byte <= 0b1110_1111 {
        Some(3)
    } else if 0b1111_0000 <= first_byte <= 0b1111_0111 {
        Some(4)
    } else {
        None
    }
}

/// What reading one character from the front of `input` gives: nothing at
/// the end of the input; else the character that the first bytes encode,
/// as many of them as the first byte asks for; or the reason why there is
/// no such character.
pub open spec fn first_char(input: Seq<u8>) -> Result<Option<char>, CipherError> {
    if input.len() == 0 {
        Ok(None)
    } else {
        match char_len_spec(input[0]) {
            None => Err(CipherError::InvalidFirstByte { first_byte: input[0] }),
            Some(n) => if input.len() < n {
                Err(CipherError::TruncatedCharacter { expected: n, found: input.len() as usize })
            } else if !valid_utf8(input.take(n as int)) {
                Err(CipherError::InvalidCharacter)
            } else {
                Ok(Some(decode_utf8(input.take(n as int))[0]))
            },
        }
    }
}

/// The number of bytes that reading one character from the front of `input`
/// uses up, whether it succeeds or fails.
pub open spec fn first_char_len(input: Seq<u8>) -> int {
    if input.len() == 0 {
        0
    } else {
        match char_len_spec(input[0]) {
            None => 1,
            Some(n) => if input.len() < n {
                input.len() as int
            } else {
                n as int
            },
        }
    }
}

/// The characters of a byte source, in order.
pub struct Chars<'a> {
    reader: ByteSource<'a>,
}

impl<'a> Chars<'a> {
    /// The bytes that have not been read yet.
    pub closed spec fn remaining(&self) -> Seq<u8> {
        self.reader.remaining()
    }

    /// The characters of `reader`.
    pub fn new(reader: &'a [u8]) -> (chars: Self)
        ensures
            chars.remaining() == reader@,
    {
        Chars { reader: ByteSource::new(reader) }
    }

    /// Reads one character.
    pub fn next_char(&mut self) -> (result: Result<Option<char>, CipherError>)
        ensures
            result == first_char(old(self).remaining()),
            final(self).remaining() == old(self).remaining().skip(
                first_char_len(old(self).remaining()),
            ),
    {
        let ghost input = self.remaining();
        let mut buf: [u8; 4] = [0, 0, 0, 0];
        match self.read_char_len(&mut buf) {
            Ok(n) => {
                if n == 0 {
                    assert(input.skip(0) =~= input);
                    return Ok(None);
                }
            },
            Err(e) => {
                return Err(e);
            },
        }
        let char_len = match char_len(buf[0]) {
            Ok(n) => n,
            Err(e) => {
                return Err(e);
            },
        };
        if char_len > 1 {
            match self.read_exact(&mut buf, char_len) {
                Ok(_) => {},
                Err(e) => {
                    return Err(e);
                },
            }
        }
        let bytes = slice_subrange(buf.as_slice(), 0, char_len);
        assert(bytes@ =~= input.take(char_len as int));
        proof {
            if valid_utf8(bytes@) {
                lemma_one_character(bytes@);
            }
        }
        let text = match from_utf8(bytes) {
            Ok(text) => text,
            Err(_) => {
                return Err(CipherError::InvalidCharacter);
            },
        };
        let decoded_char = match char::from_str(text) {
            Ok(c) => c,
            Err(_) => {
                return Err(CipherError::InvalidCharacter);
            },
        };
        Ok(Some(decoded_char))
    }

    /// Reads the first byte of a character into `buf`, and tells how many
    /// bytes that were: one, or none at the end of the source.
    pub fn read_char_len(&mut self, buf: &mut [u8; 4]) -> (result: Result<usize, CipherError>)
        ensures
            match result {
                Ok(n) => if old(self).remaining().len() == 0 {
                    &&& n == 0
                    &&& final(self).remaining() == old(self).remaining()
                    &&& *final(buf) == *old(buf)
                } else {
                    &&& n == 1
                    &&& final(self).remaining() == old(self).remaining().skip(1)
                    &&& final(buf)@ == old(buf)@.update(0, old(self).remaining()[0])
                },
                Err(_) => false,
            },
    {
        match self.reader.next() {
            Some(byte) => {
                buf[0] = byte;
                Ok(1)
            },
            None => Ok(0),
        }
    }

    /// Reads the bytes of a character behind its first one into `buf`, up
    /// to `char_len` bytes in all. Fails where the source ends before.
    fn read_exact(&mut self, buf: &mut [u8; 4], char_len: usize) -> (result: Result<
        (),
        CipherError,
    >)
        requires
            1 <= char_len <= 4,
        ensures
            match result {
                Ok(_) => {
                    &&& old(self).remaining().len() >= char_len - 1
                    &&& final(self).remaining() == old(self).remaining().skip(char_len - 1)
                    &&& final(buf)@.take(char_len as int) == seq![old(buf)@[0]] + old(
                        self,
                    ).remaining().take(char_len - 1)
                },
                Err(e) => {
                    &&& old(self).remaining().len() < char_len - 1
                    &&& final(self).remaining().len() == 0
                    &&& e == (CipherError::TruncatedCharacter {
                        expected: char_len,
                        found: (old(self).remaining().len() + 1) as usize,
                    })
                },
            },
    {
        let mut i: usize = 1;
        while i < char_len
            invariant
                1 <= i <= char_len <= 4,
                old(self).remaining().len() >= i - 1,
                self.remaining() == old(self).remaining().skip(i - 1),
                buf@.take(i as int) == seq![old(buf)@[0]] + old(self).remaining().take(i - 1),
            decreases char_len - i,
        {
            let ghost filled = buf@.take(i as int);
            match self.reader.next() {
                Some(byte) => {
                    buf[i] = byte;
                },
                None => {
                    return Err(CipherError::TruncatedCharacter { expected: char_len, found: i });
                },
            }
            i = i + 1;
            assert(self.remaining() =~= old(self).remaining().skip(i - 1));
            assert(buf@.take(i as int) =~= filled.push(old(self).remaining()[i - 2]));
            assert(buf@.take(i as int) =~= seq![old(buf)@[0]] + old(self).remaining().take(i - 1));
        }
        Ok(())
    }

    /// The next character; nothing at the end of the source; a failure
    /// where the bytes at the front are no character.
    pub fn next(&mut self) -> (item: Option<Result<char, CipherError>>)
        ensures
            match item {
                Some(Ok(c)) => first_char(old(self).remaining()) == Ok::<Option<char>, CipherError>(
                    Some(c),
                ),
                Some(Err(e)) => first_char(old(self).remaining()) == Err::<
                    Option<char>,
                    CipherError,
                >(e),
                None => first_char(old(self).remaining()) == Ok::<Option<char>, CipherError>(None),
            },
            final(self).remaining() == old(self).remaining().skip(
                first_char_len(old(self).remaining()),
            ),
    {
        match self.next_char() {
            Ok(Some(c)) => Some(Ok(c)),
            Ok(None) => None,
            Err(e) => Some(Err(e)),
        }
    }
}

/// The number of bytes of a character that starts with `first_byte`.
pub fn char_len(first_byte: u8) -> (result: Result<usize, CipherError>)
    ensures
        match result {
            Ok(n) => char_len_spec(first_byte) == Some(n),
            Err(e) => char_len_spec(first_byte) is None && e == (CipherError::InvalidFirstByte {
                first_byte,
            }),
        },
{
    match first_byte {
        0b0000_0000..=0b0111_0000 => Ok(1),
        0b1000_0000..=0b1101_1111 => Ok(2),
        0b1110_0000..=0b1110_1111 => Ok(3),
        0b1111_0000..=0b1111_0111 => Ok(4),
        _ => Err(CipherError::InvalidFirstByte { first_byte }),
    }
}

/// UTF-8 of the length that its first byte asks for is the form of one
/// character.
pub proof fn lemma_one_character(bytes: Seq<u8>)
    requires
        bytes.len() > 0,
        char_len_spec(bytes[0]) matches Some(n) && n == bytes.len(),
        valid_utf8(bytes),
    ensures
        decode_utf8(bytes).len() == 1,
{
    assert(valid_first_scalar(bytes));
    assert(length_of_first_scalar(bytes) == bytes.len());
    assert(pop_first_scalar(bytes) =~= Seq::<u8>::empty());
    assert(decode_utf8(Seq::<u8>::empty()) =~= Seq::<char>::empty());
}

/// Reading at the front of the UTF-8 form of a character gives that
/// character and uses up that form, whatever follows it. The characters
/// from U+0071 to U+007F are left out: no character is taken to start with
/// the byte of one of them.
pub proof fn lemma_first_char_of_encoded(c: char, rest: Seq<u8>)
    requires
        !(0x71 <= c as u32 <= 0x7f),
    ensures
        first_char(encode_utf8(seq![c]) + rest) == Ok::<Option<char>, CipherError>(Some(c)),
        first_char_len(encode_utf8(seq![c]) + rest) == encode_utf8(seq![c]).len(),
        encode_utf8(seq![c]).len() > 0,
{
    let text = seq![c];
    let cp = c as u32;
    let form = encode_utf8(text);
    let input = form + rest;
    assert(text.drop_first() =~= Seq::<char>::empty());
    assert(encode_utf8(text.drop_first()) =~= Seq::<u8>::empty());
    assert(form =~= encode_scalar(cp));
    char_is_scalar(c);
    let first = form[0];
    if has_width_1_encoding(cp) {
        assert(first <= 0x70) by (bit_vector)
            requires
                cp <= 0x70,
                first == (cp & 0x7f) as u8,
        ;
    } else if has_width_2_encoding(cp) {
        assert(0xc0 <= first <= 0xdf) by (bit_vector)
            requires
                first == 0xC0u8 | ((cp >> 6) & 0x1f) as u8,
        ;
    } else if has_width_3_encoding(cp) {
        assert(0xe0 <= first <= 0xef) by (bit_vector)
            requires
                first == 0xE0u8 | ((cp >> 12) & 0x0f) as u8,
        ;
    } else {
        assert(0xf0 <= first <= 0xf7) by (bit_vector)
            requires
                first == 0xF0u8 | ((cp >> 18) & 0x07) as u8,
        ;
    }
    assert(input[0] == first);
    assert(char_len_spec(first) == Some(form.len() as usize));
    assert(input.take(form.len() as int) =~= form);
    encode_utf8_valid_utf8(text);
    encode_utf8_decode_utf8(text);
}

} // verus!
