//! Layouts that take the two bytes of a pair apart, and the cipher that
//! drives one of them over whole inputs.

use crate::decrypt::checked_decrypt_size;
use crate::encrypt::checked_encrypt_size;
use crate::error::CipherError;
use crate::sink::write_all;
use crate::source::ByteSource;
use crate::text::from_utf8_output;
use crate::transform;
use crate::transform::{
    decrypt_outcome, decrypt_size_spec, decrypted_bytes, decrypted_text, encrypt_size_spec,
    encrypted_bytes, encrypted_text, has_width, inverts, is_seven_bit, masked_pair, text_of,
};
use vstd::prelude::*;
use vstd::utf8::{encode_utf8, is_ascii_chars, valid_utf8};

pub mod extended;
pub mod standard;

pub use extended::Extended;
pub use standard::Standard;

verus! {

/// Mask of the seventh bit of a byte, the highest bit that is kept.
pub const SIG_BIT_MASK: u8 = 0b0100_0000;

/// Mask of the six low bits of a byte, which one continuation byte carries.
pub const LOWER_BITS_MASK: u8 = 0b0011_1111;

/// Mask of the flag in a lead byte that marks a unit of one byte.
pub const SINGLE_CHAR_MASK: u8 = 0b0000_0100;

/// A bit layout of width `N`: a pair of bytes, the second one optional, is
/// packed into `N` bytes and unpacked again.
pub trait Algorithm<const N: usize> {
    /// The unit that stands for `c0` and `c1`.
    spec fn encrypt_chars_spec(&self, c0: u8, c1: Option<u8>) -> Seq<u8>;

    /// The pair that a unit stands for.
    spec fn decrypt_chars_spec(&self, encrypted: Seq<u8>) -> (u8, Option<u8>);

    /// Packs `c0` and, where there is one, `c1` into one unit.
    fn encrypt_chars(&self, c0: u8, c1: Option<u8>) -> (encrypted: [u8; N])
        ensures
            encrypted@ == self.encrypt_chars_spec(c0, c1),
    ;

    /// Unpacks one unit.
    fn decrypt_chars(&self, encrypted: [u8; N]) -> (pair: (u8, Option<u8>))
        ensures
            pair == self.decrypt_chars_spec(encrypted@),
    ;

    /// Every unit is `N` bytes wide, and `N` is not zero.
    proof fn lemma_unit_width(&self, c0: u8, c1: Option<u8>)
        ensures
            N > 0,
            self.encrypt_chars_spec(c0, c1).len() == N,
    ;

    /// Unpacking a packed pair gives the pair back, each byte without its
    /// eighth bit.
    proof fn lemma_round_trip(&self, c0: u8, c1: Option<u8>)
        ensures
            self.decrypt_chars_spec(self.encrypt_chars_spec(c0, c1)) == masked_pair(c0, c1),
    ;
}

/// The packing of a layout, as a function of a pair.
pub open spec fn packer<A: Algorithm<N>, const N: usize>(algorithm: A) -> spec_fn(
    u8,
    Option<u8>,
) -> Seq<u8> {
    |c0: u8, c1: Option<u8>| algorithm.encrypt_chars_spec(c0, c1)
}

/// The unpacking of a layout, as a function of a unit.
pub open spec fn unpacker<A: Algorithm<N>, const N: usize>(algorithm: A) -> spec_fn(Seq<u8>) -> (
    u8,
    Option<u8>,
) {
    |encrypted: Seq<u8>| algorithm.decrypt_chars_spec(encrypted)
}

/// The bytes that `input` is packed into by a layout.
pub open spec fn encrypt_spec<A: Algorithm<N>, const N: usize>(algorithm: A, input: Seq<u8>) -> Seq<
    u8,
> {
    encrypted_bytes(packer(algorithm), input)
}

/// The bytes that the whole units of `input` stand for in a layout.
pub open spec fn decrypt_spec<A: Algorithm<N>, const N: usize>(algorithm: A, input: Seq<u8>) -> Seq<
    u8,
> {
    decrypted_bytes(unpacker(algorithm), N as nat, input)
}

/// A layout has units of one width, which is not zero, and its unpacking
/// undoes its packing.
pub proof fn lemma_layout<A: Algorithm<N>, const N: usize>(algorithm: A)
    ensures
        N > 0,
        has_width(packer(algorithm), N as nat),
        inverts(unpacker(algorithm), packer(algorithm)),
{
    algorithm.lemma_unit_width(0, None);
    assert forall|c0: u8, c1: Option<u8>| #[trigger]
        packer(algorithm)(c0, c1).len() == N as nat by {
        algorithm.lemma_unit_width(c0, c1);
    }
    assert forall|c0: u8, c1: Option<u8>|
        unpacker(algorithm)(#[trigger] packer(algorithm)(c0, c1)) == masked_pair(c0, c1) by {
        algorithm.lemma_round_trip(c0, c1);
    }
}

/// Bytes with the eighth bit clear, packed and unpacked again, come back as
/// they were, whatever their number; and what packing gives is made of
/// whole units, so that unpacking it does not fail.
pub proof fn lemma_decrypt_inverts_encrypt<A: Algorithm<N>, const N: usize>(
    algorithm: A,
    input: Seq<u8>,
)
    requires
        is_seven_bit(input),
    ensures
        decrypt_spec(algorithm, encrypt_spec(algorithm, input)) == input,
        decrypt_outcome(N as nat, encrypt_spec(algorithm, input).len()) == Ok::<(), CipherError>(
            (),
        ),
{
    lemma_layout(algorithm);
    transform::lemma_round_trip_seven_bit(
        packer(algorithm),
        unpacker(algorithm),
        N as nat,
        input,
    );
    transform::lemma_encrypted_whole_units(packer(algorithm), N as nat, input);
}

/// Bytes of any kind, packed and unpacked again, come back without their
/// eighth bit.
pub proof fn lemma_decrypt_masks_eighth_bit<A: Algorithm<N>, const N: usize>(
    algorithm: A,
    input: Seq<u8>,
)
    ensures
        decrypt_spec(algorithm, encrypt_spec(algorithm, input)) == input.map_values(
            |b: u8| transform::low7(b),
        ),
{
    lemma_layout(algorithm);
    transform::lemma_round_trip(packer(algorithm), unpacker(algorithm), N as nat, input);
}

/// The last unit for an input of odd length is the one that holds its last
/// byte alone.
pub proof fn lemma_odd_length_ends_single<A: Algorithm<N>, const N: usize>(
    algorithm: A,
    input: Seq<u8>,
)
    requires
        input.len() % 2 == 1,
    ensures
        encrypt_spec(algorithm, input) == encrypt_spec(algorithm, input.drop_last())
            + algorithm.encrypt_chars_spec(input.last(), None),
{
    transform::lemma_odd_length_ends_single(packer(algorithm), input);
}

/// The sizes that are computed ahead are the sizes that come out: packing
/// gives `encrypt_size_spec` bytes exactly; unpacking gives at most
/// `decrypt_size_spec` bytes; and unpacking what was packed gives that
/// number less one where the input was of odd length.
pub proof fn lemma_sizes<A: Algorithm<N>, const N: usize>(algorithm: A, input: Seq<u8>)
    ensures
        encrypt_spec(algorithm, input).len() == encrypt_size_spec(N as nat, input.len()),
        decrypt_spec(algorithm, input).len() <= decrypt_size_spec(N as nat, input.len()),
        decrypt_spec(algorithm, encrypt_spec(algorithm, input)).len() + input.len() % 2
            == decrypt_size_spec(N as nat, encrypt_spec(algorithm, input).len()),
{
    lemma_layout(algorithm);
    transform::lemma_encrypted_len(packer(algorithm), N as nat, input);
    transform::lemma_decrypted_len(unpacker(algorithm), N as nat, input);
    transform::lemma_round_trip(packer(algorithm), unpacker(algorithm), N as nat, input);
    let units = (input.len() + 1) / 2;
    assert((units * (N as nat)) / (N as nat) == units) by (nonlinear_arith)
        requires
            N > 0,
            units >= 0,
    ;
}

/// ASCII text whose packed form is UTF-8 is packed into a string, and
/// unpacking that string gives the text back.
pub proof fn lemma_string_round_trip<A: Algorithm<N>, const N: usize>(
    algorithm: A,
    text: Seq<char>,
)
    requires
        is_ascii_chars(text),
        valid_utf8(encrypt_spec(algorithm, encode_utf8(text))),
    ensures
        encrypted_text(packer(algorithm), text) is Ok,
        decrypted_text(
            unpacker(algorithm),
            N as nat,
            encrypted_text(packer(algorithm), text)->Ok_0,
        ) == Ok::<Seq<char>, CipherError>(text),
{
    lemma_layout(algorithm);
    transform::lemma_text_round_trip(packer(algorithm), unpacker(algorithm), N as nat, text);
}

/// The empty text is packed into the empty text and unpacked into it.
pub proof fn lemma_empty_text<A: Algorithm<N>, const N: usize>(algorithm: A)
    ensures
        encrypt_spec(algorithm, Seq::<u8>::empty()) == Seq::<u8>::empty(),
        decrypt_spec(algorithm, Seq::<u8>::empty()) == Seq::<u8>::empty(),
        encrypted_text(packer(algorithm), Seq::<char>::empty()) == Ok::<Seq<char>, CipherError>(
            Seq::<char>::empty(),
        ),
        decrypted_text(unpacker(algorithm), N as nat, Seq::<char>::empty()) == Ok::<
            Seq<char>,
            CipherError,
        >(Seq::<char>::empty()),
{
    lemma_layout(algorithm);
    transform::lemma_empty(packer(algorithm), unpacker(algorithm), N as nat);
    assert(encode_utf8(Seq::<char>::empty()) =~= Seq::<u8>::empty());
    assert(vstd::utf8::decode_utf8(Seq::<u8>::empty()) =~= Seq::<char>::empty());
}

/// The two transforms of one layout.
pub struct Cipher<A: Algorithm<N>, const N: usize> {
    algorithm: A,
}

impl<A: Algorithm<N>, const N: usize> Cipher<A, N> {
    /// The layout that this cipher packs with.
    pub closed spec fn algorithm(&self) -> A {
        self.algorithm
    }

    /// A cipher that packs with `algorithm`.
    pub fn new(algorithm: A) -> (cipher: Self)
        ensures
            cipher.algorithm() == algorithm,
    {
        Cipher { algorithm }
    }

    /// Packs all of `from` and puts the units behind what `to` holds.
    pub fn encrypt(&self, from: &[u8], to: &mut Vec<u8>) -> (result: Result<(), CipherError>)
        ensures
            result is Ok,
            final(to)@ == old(to)@ + encrypt_spec(self.algorithm(), from@),
    {
        let mut bytes = ByteSource::new(from);
        loop
            invariant
                old(to)@ + encrypt_spec(self.algorithm(), from@) == to@ + encrypt_spec(
                    self.algorithm(),
                    bytes.remaining(),
                ),
            decreases bytes.remaining().len(),
        {
            let ghost before = bytes.remaining();
            let ghost written = to@;
            let first = bytes.next();
            let second = bytes.next();
            let encrypted = match (first, second) {
                (Some(c0), Some(c1)) => {
                    assert(bytes.remaining() =~= before.skip(2));
                    self.algorithm.encrypt_chars(c0, Some(c1))
                },
                (Some(c0), None) => self.algorithm.encrypt_chars(c0, None),
                _ => {
                    assert(to@ + encrypt_spec(self.algorithm(), before) =~= to@);
                    return Ok(());
                },
            };
            write_all(to, encrypted.as_slice());
            assert(written + encrypt_spec(self.algorithm(), before) =~= to@ + encrypt_spec(
                self.algorithm(),
                bytes.remaining(),
            ));
        }
    }

    /// Unpacks the whole units of `from` and puts their bytes behind what
    /// `to` holds. Fails where bytes are left over behind the last whole
    /// unit; what the whole units stand for is written even then.
    pub fn decrypt(&self, from: &[u8], to: &mut Vec<u8>) -> (result: Result<(), CipherError>)
        ensures
            final(to)@ == old(to)@ + decrypt_spec(self.algorithm(), from@),
            result == decrypt_outcome(N as nat, from@.len()),
    {
        proof {
            self.algorithm.lemma_unit_width(0, None);
        }
        let mut bytes = ByteSource::new(from);
        loop
            invariant
                N > 0,
                old(to)@ + decrypt_spec(self.algorithm(), from@) == to@ + decrypt_spec(
                    self.algorithm(),
                    bytes.remaining(),
                ),
                bytes.remaining().len() % (N as nat) == from@.len() % (N as nat),
            decreases bytes.remaining().len(),
        {
            let ghost before = bytes.remaining();
            let ghost written = to@;
            let encrypted = match Self::read_n_bytes(&mut bytes) {
                Ok(Some(e)) => e,
                Ok(None) => {
                    assert(to@ + decrypt_spec(self.algorithm(), before) =~= to@);
                    assert(0nat % (N as nat) == 0) by (nonlinear_arith)
                        requires
                            N > 0,
                    ;
                    return Ok(());
                },
                Err(e) => {
                    assert(to@ + decrypt_spec(self.algorithm(), before) =~= to@);
                    assert(before.len() % (N as nat) == before.len()) by (nonlinear_arith)
                        requires
                            0 < before.len() < N,
                    ;
                    return Err(e);
                },
            };
            assert(bytes.remaining().len() % (N as nat) == before.len() % (N as nat))
                by (nonlinear_arith)
                requires
                    N > 0,
                    before.len() == bytes.remaining().len() + N,
            ;
            match self.algorithm.decrypt_chars(encrypted) {
                (c0, Some(c1)) => {
                    to.push(c0);
                    to.push(c1);
                },
                (c0, None) => {
                    to.push(c0);
                },
            }
            assert(written + decrypt_spec(self.algorithm(), before) =~= to@ + decrypt_spec(
                self.algorithm(),
                bytes.remaining(),
            ));
        }
    }

    /// Reads one unit. Gives nothing at the end of the source, and fails
    /// where the source ends inside the unit.
    pub fn read_n_bytes(from: &mut ByteSource) -> (result: Result<Option<[u8; N]>, CipherError>)
        ensures
            match result {
                Ok(Some(encrypted)) => {
                    &&& old(from).remaining().len() >= N
                    &&& encrypted@ == old(from).remaining().take(N as int)
                    &&& final(from).remaining() == old(from).remaining().skip(N as int)
                },
                Ok(None) => {
                    &&& N > 0
                    &&& old(from).remaining().len() == 0
                    &&& final(from).remaining() == old(from).remaining()
                },
                Err(e) => {
                    &&& 0 < old(from).remaining().len() < N
                    &&& e == (CipherError::TruncatedCharacter {
                        expected: N,
                        found: old(from).remaining().len() as usize,
                    })
                    &&& final(from).remaining().len() == 0
                },
            },
    {
        let mut encrypted: [u8; N] = [0;N];
        let mut i: usize = 0;
        while i < N
            invariant
                i <= N,
                old(from).remaining().len() >= i,
                from.remaining() == old(from).remaining().skip(i as int),
                encrypted@.take(i as int) == old(from).remaining().take(i as int),
            decreases N - i,
        {
            match from.next() {
                Some(byte) => {
                    encrypted[i] = byte;
                },
                None => {
                    if i == 0 {
                        return Ok(None);
                    } else {
                        return Self::insufficent_bytes(i);
                    }
                },
            }
            i = i + 1;
            assert(from.remaining() =~= old(from).remaining().skip(i as int));
            assert(encrypted@.take(i as int) =~= old(from).remaining().take(i as int));
        }
        assert(encrypted@.take(N as int) =~= encrypted@);
        Ok(Some(encrypted))
    }

    /// The failure for a source that ended after `num_bytes` bytes of a
    /// unit.
    pub fn insufficent_bytes(num_bytes: usize) -> (result: Result<Option<[u8; N]>, CipherError>)
        ensures
            result == Err::<Option<[u8; N]>, CipherError>(
                CipherError::TruncatedCharacter { expected: N, found: num_bytes },
            ),
    {
        Err(CipherError::TruncatedCharacter { expected: N, found: num_bytes })
    }

    /// The packed form of `to_encrypt` as text. Fails where that form is
    /// not UTF-8.
    pub fn encrypt_string(&self, to_encrypt: &str) -> (result: Result<String, CipherError>)
        ensures
            text_of(result) == encrypted_text(packer(self.algorithm()), to_encrypt@),
    {
        let input = to_encrypt.as_bytes();
        let mut result: Vec<u8> = match checked_encrypt_size::<N>(input.len()) {
            Some(_) => Vec::with_capacity(Self::encrypt_size(input.len())),
            None => Vec::new(),
        };
        let _ = self.encrypt(input, &mut result);
        assert(result@ =~= encrypt_spec(self.algorithm(), input@));
        from_utf8_output(result)
    }

    /// The text that `to_decrypt` is the packed form of. Fails where
    /// `to_decrypt` ends inside a unit, and where what its units stand for
    /// is not UTF-8.
    pub fn decrypt_string(&self, to_decrypt: &str) -> (result: Result<String, CipherError>)
        ensures
            text_of(result) == decrypted_text(unpacker(self.algorithm()), N as nat, to_decrypt@),
    {
        proof {
            self.algorithm.lemma_unit_width(0, None);
        }
        let input = to_decrypt.as_bytes();
        let mut result: Vec<u8> = match checked_decrypt_size::<N>(input.len()) {
            Some(_) => Vec::with_capacity(Self::decrypt_size(input.len())),
            None => Vec::new(),
        };
        match self.decrypt(input, &mut result) {
            Ok(_) => {},
            Err(e) => {
                return Err(e);
            },
        }
        assert(result@ =~= decrypt_spec(self.algorithm(), input@));
        from_utf8_output(result)
    }

    /// The number of bytes that packing `num_bytes` bytes gives.
    pub fn encrypt_size(num_bytes: usize) -> (size: usize)
        requires
            encrypt_size_spec(N as nat, num_bytes as nat) <= usize::MAX,
        ensures
            size == encrypt_size_spec(N as nat, num_bytes as nat),
    {
        let num_encrypted_chars_needed: usize = if num_bytes % 2 == 0 {
            num_bytes / 2
        } else {
            (num_bytes / 2) + 1
        };
        assert(num_encrypted_chars_needed == (num_bytes + 1) / 2);
        num_encrypted_chars_needed * N
    }

    /// The most bytes that unpacking `num_bytes` bytes can give.
    pub fn decrypt_size(num_bytes: usize) -> (size: usize)
        requires
            N > 0,
            decrypt_size_spec(N as nat, num_bytes as nat) <= usize::MAX,
        ensures
            size == decrypt_size_spec(N as nat, num_bytes as nat),
    {
        let num_encrypted_chars: usize = num_bytes / N;
        num_encrypted_chars * 2
    }
}

} // verus!
