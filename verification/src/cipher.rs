//! Layouts that take a pair as one value, and the transforms that they
//! drive over streams of pairs and of units.

use crate::cipher::bytepairs::BytePairs;
use crate::cipher::nbytes::NBytes;
use crate::error::CipherError;
use crate::sink::write_all;
use crate::transform;
use crate::transform::{
    decrypt_outcome, decrypted_bytes, encrypted_bytes, has_width, inverts, is_seven_bit,
    masked_pair,
};
use vstd::prelude::*;

pub mod bytepairs;
pub mod chars;
pub mod extended;
pub mod nbytes;
pub mod standard;

pub use extended::Extended;
pub use standard::Standard;

verus! {

/// A byte and the one behind it; the second is absent only for the last
/// byte of an input of odd length.
pub type BytePair = (u8, Option<u8>);

/// A bit layout of width `N`, with the transforms over whole inputs that
/// follow from it.
pub trait Cipher<const N: usize> {
    /// The unit that stands for a pair.
    spec fn encrypt_char_pair_spec(&self, pair: BytePair) -> Seq<u8>;

    /// The pair that a unit stands for.
    spec fn decrypt_char_pair_spec(&self, encrypted: Seq<u8>) -> BytePair;

    /// Packs a pair into one unit.
    fn encrypt_char_pair(&self, pair: BytePair) -> (encrypted: [u8; N])
        ensures
            encrypted@ == self.encrypt_char_pair_spec(pair),
    ;

    /// Unpacks one unit.
    fn decrypt_char_pair(&self, encrypted: [u8; N]) -> (pair: BytePair)
        ensures
            pair == self.decrypt_char_pair_spec(encrypted@),
    ;

    /// Every unit is `N` bytes wide, and `N` is not zero.
    proof fn lemma_unit_width(&self, pair: BytePair)
        ensures
            N > 0,
            self.encrypt_char_pair_spec(pair).len() == N,
    ;

    /// Unpacking a packed pair gives the pair back, each byte without its
    /// eighth bit.
    proof fn lemma_round_trip(&self, pair: BytePair)
        ensures
            self.decrypt_char_pair_spec(self.encrypt_char_pair_spec(pair)) == masked_pair(
                pair.0,
                pair.1,
            ),
    ;

    /// Packs all of `reader` and puts the units behind what `writer` holds.
    fn encrypt(&self, reader: &[u8], writer: &mut Vec<u8>) -> (result: Result<(), CipherError>)
        ensures
            result is Ok,
            final(writer)@ == old(writer)@ + encrypted_bytes(
                |c0: u8, c1: Option<u8>| self.encrypt_char_pair_spec((c0, c1)),
                reader@,
            ),
    {
        let mut pairs = BytePairs::new(reader);
        loop
            invariant
                old(writer)@ + encrypted_bytes(
                    |c0: u8, c1: Option<u8>| self.encrypt_char_pair_spec((c0, c1)),
                    reader@,
                ) == writer@ + encrypted_bytes(
                    |c0: u8, c1: Option<u8>| self.encrypt_char_pair_spec((c0, c1)),
                    pairs.remaining(),
                ),
            decreases pairs.remaining().len(),
        {
            let ghost before = pairs.remaining();
            let ghost written = writer@;
            let byte_pair = match pairs.next() {
                Some(Ok(pair)) => pair,
                Some(Err(e)) => {
                    return Err(e);
                },
                None => {
                    assert(written + encrypted_bytes(
                        |c0: u8, c1: Option<u8>| self.encrypt_char_pair_spec((c0, c1)),
                        before,
                    ) =~= written);
                    return Ok(());
                },
            };
            let encrypted = self.encrypt_char_pair(byte_pair);
            write_all(writer, encrypted.as_slice());
            assert(written + encrypted_bytes(
                |c0: u8, c1: Option<u8>| self.encrypt_char_pair_spec((c0, c1)),
                before,
            ) =~= writer@ + encrypted_bytes(
                |c0: u8, c1: Option<u8>| self.encrypt_char_pair_spec((c0, c1)),
                pairs.remaining(),
            ));
        }
    }

    /// Unpacks the whole units of `reader` and puts their bytes behind what
    /// `writer` holds. Fails where bytes are left over behind the last
    /// whole unit; what the whole units stand for is written even then.
    fn decrypt(&self, reader: &[u8], writer: &mut Vec<u8>) -> (result: Result<(), CipherError>)
        ensures
            final(writer)@ == old(writer)@ + decrypted_bytes(
                |encrypted: Seq<u8>| self.decrypt_char_pair_spec(encrypted),
                N as nat,
                reader@,
            ),
            result == decrypt_outcome(N as nat, reader@.len()),
    {
        proof {
            self.lemma_unit_width((0, None));
        }
        let mut units: NBytes<'_, N> = NBytes::new(reader);
        loop
            invariant
                N > 0,
                old(writer)@ + decrypted_bytes(
                    |encrypted: Seq<u8>| self.decrypt_char_pair_spec(encrypted),
                    N as nat,
                    reader@,
                ) == writer@ + decrypted_bytes(
                    |encrypted: Seq<u8>| self.decrypt_char_pair_spec(encrypted),
                    N as nat,
                    units.remaining(),
                ),
                units.remaining().len() % (N as nat) == reader@.len() % (N as nat),
            decreases units.remaining().len(),
        {
            let ghost before = units.remaining();
            let ghost written = writer@;
            let encrypted = match units.next() {
                Some(Ok(encrypted)) => encrypted,
                Some(Err(e)) => {
                    assert(written + decrypted_bytes(
                        |encrypted: Seq<u8>| self.decrypt_char_pair_spec(encrypted),
                        N as nat,
                        before,
                    ) =~= written);
                    assert(before.len() % (N as nat) == before.len()) by (nonlinear_arith)
                        requires
                            0 < before.len() < N,
                    ;
                    return Err(e);
                },
                None => {
                    assert(written + decrypted_bytes(
                        |encrypted: Seq<u8>| self.decrypt_char_pair_spec(encrypted),
                        N as nat,
                        before,
                    ) =~= written);
                    assert(0nat % (N as nat) == 0) by (nonlinear_arith)
                        requires
                            N > 0,
                    ;
                    return Ok(());
                },
            };
            assert(units.remaining().len() % (N as nat) == before.len() % (N as nat))
                by (nonlinear_arith)
                requires
                    N > 0,
                    before.len() == units.remaining().len() + N,
            ;
            match self.decrypt_char_pair(encrypted) {
                (c0, Some(c1)) => {
                    write_all(writer, [c0, c1].as_slice());
                },
                (c0, None) => {
                    write_all(writer, [c0].as_slice());
                },
            }
            assert(written + decrypted_bytes(
                |encrypted: Seq<u8>| self.decrypt_char_pair_spec(encrypted),
                N as nat,
                before,
            ) =~= writer@ + decrypted_bytes(
                |encrypted: Seq<u8>| self.decrypt_char_pair_spec(encrypted),
                N as nat,
                units.remaining(),
            ));
        }
    }
}

impl<C: Cipher<N>, const N: usize> Cipher<N> for &C {
    open spec fn encrypt_char_pair_spec(&self, pair: BytePair) -> Seq<u8> {
        (**self).encrypt_char_pair_spec(pair)
    }

    open spec fn decrypt_char_pair_spec(&self, encrypted: Seq<u8>) -> BytePair {
        (**self).decrypt_char_pair_spec(encrypted)
    }

    fn encrypt_char_pair(&self, pair: BytePair) -> (encrypted: [u8; N]) {
        (**self).encrypt_char_pair(pair)
    }

    fn decrypt_char_pair(&self, encrypted: [u8; N]) -> (pair: BytePair) {
        (**self).decrypt_char_pair(encrypted)
    }

    proof fn lemma_unit_width(&self, pair: BytePair) {
        (**self).lemma_unit_width(pair);
    }

    proof fn lemma_round_trip(&self, pair: BytePair) {
        (**self).lemma_round_trip(pair);
    }
}

/// The packing of a layout, as a function of the two parts of a pair.
pub open spec fn packer<C: Cipher<N>, const N: usize>(cipher: C) -> spec_fn(u8, Option<u8>) -> Seq<
    u8,
> {
    |c0: u8, c1: Option<u8>| cipher.encrypt_char_pair_spec((c0, c1))
}

/// The unpacking of a layout, as a function of a unit.
pub open spec fn unpacker<C: Cipher<N>, const N: usize>(cipher: C) -> spec_fn(Seq<u8>) -> BytePair {
    |encrypted: Seq<u8>| cipher.decrypt_char_pair_spec(encrypted)
}

/// A layout has units of one width, which is not zero, and its unpacking
/// undoes its packing.
pub proof fn lemma_layout<C: Cipher<N>, const N: usize>(cipher: C)
    ensures
        N > 0,
        has_width(packer(cipher), N as nat),
        inverts(unpacker(cipher), packer(cipher)),
{
    cipher.lemma_unit_width((0, None));
    assert forall|c0: u8, c1: Option<u8>| #[trigger]
        packer(cipher)(c0, c1).len() == N as nat by {
        cipher.lemma_unit_width((c0, c1));
    }
    assert forall|c0: u8, c1: Option<u8>|
        unpacker(cipher)(#[trigger] packer(cipher)(c0, c1)) == masked_pair(c0, c1) by {
        cipher.lemma_round_trip((c0, c1));
    }
}

/// Bytes with the eighth bit clear, packed and unpacked again, come back as
/// they were, whatever their number; and what packing gives is made of
/// whole units, so that unpacking it does not fail.
pub proof fn lemma_decrypt_inverts_encrypt<C: Cipher<N>, const N: usize>(
    cipher: C,
    input: Seq<u8>,
)
    requires
        is_seven_bit(input),
    ensures
        decrypted_bytes(
            unpacker(cipher),
            N as nat,
            encrypted_bytes(packer(cipher), input),
        ) == input,
        decrypt_outcome(N as nat, encrypted_bytes(packer(cipher), input).len()) == Ok::<
            (),
            CipherError,
        >(()),
{
    lemma_layout(cipher);
    transform::lemma_round_trip_seven_bit(packer(cipher), unpacker(cipher), N as nat, input);
    transform::lemma_encrypted_whole_units(packer(cipher), N as nat, input);
}

} // verus!
