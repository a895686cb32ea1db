//! Unpacking into a sink that the unpacker holds.

use crate::algorithm::{decrypt_spec, unpacker, Algorithm};
use crate::cipher::nbytes::NBytes;
use crate::error::CipherError;
use crate::sink::write_all;
use crate::text::from_utf8_output;
use crate::transform::{decrypt_outcome, decrypt_size_spec, decrypted_text, text_of};
use vstd::prelude::*;

pub use crate::cipher::chars::Chars;

verus! {

/// Unpacks with one layout into one sink, input after input.
pub struct Decrypter<A: Algorithm<N>, const N: usize> {
    to: Vec<u8>,
    algorithm: A,
}

impl<A: Algorithm<N>, const N: usize> Decrypter<A, N> {
    /// The bytes that the sink holds.
    pub closed spec fn written(&self) -> Seq<u8> {
        self.to@
    }

    /// The layout that is unpacked with.
    pub closed spec fn algorithm(&self) -> A {
        self.algorithm
    }

    /// A decrypter that unpacks with `algorithm` and writes behind what
    /// `to` holds.
    pub fn new(to: Vec<u8>, algorithm: A) -> (decrypter: Self)
        ensures
            decrypter.written() == to@,
            decrypter.algorithm() == algorithm,
    {
        Decrypter { to, algorithm }
    }

    /// Unpacks the whole units of `from` and puts their bytes behind what
    /// the sink holds. Fails where bytes are left over behind the last
    /// whole unit; what the whole units stand for is written even then.
    pub fn decrypt(&mut self, from: &[u8]) -> (result: Result<(), CipherError>)
        ensures
            final(self).written() == old(self).written() + decrypt_spec(
                old(self).algorithm(),
                from@,
            ),
            final(self).algorithm() == old(self).algorithm(),
            result == decrypt_outcome(N as nat, from@.len()),
    {
        proof {
            self.algorithm.lemma_unit_width(0, None);
        }
        let mut units: NBytes<'_, N> = NBytes::new(from);
        loop
            invariant
                N > 0,
                old(self).written() + decrypt_spec(self.algorithm(), from@) == self.written()
                    + decrypt_spec(self.algorithm(), units.remaining()),
                self.algorithm() == old(self).algorithm(),
                units.remaining().len() % (N as nat) == from@.len() % (N as nat),
            decreases units.remaining().len(),
        {
            let ghost before = units.remaining();
            let ghost written = self.written();
            let encrypted = match units.next() {
                Some(Ok(encrypted)) => encrypted,
                Some(Err(e)) => {
                    assert(written + decrypt_spec(self.algorithm(), before) =~= written);
                    assert(before.len() % (N as nat) == before.len()) by (nonlinear_arith)
                        requires
                            0 < before.len() < N,
                    ;
                    return Err(e);
                },
                None => {
                    assert(written + decrypt_spec(self.algorithm(), before) =~= written);
                    assert(0nat % (N as nat) == 0) by (nonlinear_arith)
                        requires
                            N > 0,
                    ;
                    return Ok(());
                },
            };
            assert(units.remaining().len() % (N as nat) == before.len() % (N as nat))
                by (nonlinear_arith)
                requires
                    N > 0,
                    before.len() == units.remaining().len() + N,
            ;
            match self.algorithm.decrypt_chars(encrypted) {
                (c0, Some(c1)) => {
                    write_all(&mut self.to, [c0, c1].as_slice());
                },
                (c0, None) => {
                    write_all(&mut self.to, [c0].as_slice());
                },
            }
            assert(written + decrypt_spec(self.algorithm(), before) =~= self.written()
                + decrypt_spec(self.algorithm(), units.remaining()));
        }
    }

    /// Hands the sink back.
    pub fn into_inner(self) -> (to: Vec<u8>)
        ensures
            to@ == self.written(),
    {
        self.to
    }
}

/// The text that `to_decrypt` is the packed form of. Fails where
/// `to_decrypt` ends inside a unit, and where what its units stand for is
/// not UTF-8.
pub fn decrypt_string<A, const N: usize>(to_decrypt: &str, algorithm: A) -> (result: Result<
    String,
    CipherError,
>) where A: Algorithm<N>
    ensures
        text_of(result) == decrypted_text(unpacker(algorithm), N as nat, to_decrypt@),
{
    proof {
        algorithm.lemma_unit_width(0, None);
    }
    let input = to_decrypt.as_bytes();
    let result: Vec<u8> = match checked_decrypt_size::<N>(input.len()) {
        Some(buf_size) => Vec::with_capacity(buf_size),
        None => Vec::new(),
    };
    let mut decrypter = Decrypter::new(result, algorithm);
    match decrypter.decrypt(input) {
        Ok(_) => {},
        Err(e) => {
            return Err(e);
        },
    }
    let result = decrypter.into_inner();
    assert(result@ =~= decrypt_spec(algorithm, input@));
    from_utf8_output(result)
}

/// The most bytes that unpacking `num_bytes` bytes can give, `N` bytes to a
/// unit.
pub fn decrypt_size<const N: usize>(num_bytes: usize) -> (size: usize)
    requires
        N > 0,
        decrypt_size_spec(N as nat, num_bytes as nat) <= usize::MAX,
    ensures
        size == decrypt_size_spec(N as nat, num_bytes as nat),
{
    let num_encrypted_chars: usize = num_bytes / N;
    num_encrypted_chars * 2
}

/// The most bytes that unpacking `num_bytes` bytes can give, `N` bytes to a
/// unit, or nothing where that number is too large for a `usize`.
pub fn checked_decrypt_size<const N: usize>(num_bytes: usize) -> (size: Option<usize>)
    requires
        N > 0,
    ensures
        match size {
            Some(size) => size == decrypt_size_spec(N as nat, num_bytes as nat),
            None => decrypt_size_spec(N as nat, num_bytes as nat) > usize::MAX,
        },
{
    match (num_bytes / N).checked_mul(2) {
        Some(_) => Some(decrypt_size::<N>(num_bytes)),
        None => None,
    }
}

} // verus!
