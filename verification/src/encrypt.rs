//! Packing into a sink that the packer holds.

use crate::algorithm::{encrypt_spec, packer, Algorithm};
use crate::error::CipherError;
use crate::sink::write_all;
use crate::source::ByteSource;
use crate::text::from_utf8_output;
use crate::transform::{encrypt_size_spec, encrypted_text, text_of};
use vstd::prelude::*;

verus! {

/// Packs with one layout into one sink, input after input.
pub struct Encrypter<A: Algorithm<N>, const N: usize> {
    to: Vec<u8>,
    algorithm: A,
}

impl<A: Algorithm<N>, const N: usize> Encrypter<A, N> {
    /// The bytes that the sink holds.
    pub closed spec fn written(&self) -> Seq<u8> {
        self.to@
    }

    /// The layout that is packed with.
    pub closed spec fn algorithm(&self) -> A {
        self.algorithm
    }

    /// An encrypter that packs with `algorithm` and writes behind what
    /// `to` holds.
    pub fn new(to: Vec<u8>, algorithm: A) -> (encrypter: Self)
        ensures
            encrypter.written() == to@,
            encrypter.algorithm() == algorithm,
    {
        Encrypter { to, algorithm }
    }

    /// Packs all of `from` and puts the units behind what the sink holds.
    pub fn encrypt(&mut self, from: &[u8]) -> (result: Result<(), CipherError>)
        ensures
            result is Ok,
            final(self).written() == old(self).written() + encrypt_spec(
                old(self).algorithm(),
                from@,
            ),
            final(self).algorithm() == old(self).algorithm(),
    {
        let mut bytes = ByteSource::new(from);
        loop
            invariant
                old(self).written() + encrypt_spec(self.algorithm(), from@) == self.written()
                    + encrypt_spec(self.algorithm(), bytes.remaining()),
                self.algorithm() == old(self).algorithm(),
            decreases bytes.remaining().len(),
        {
            let ghost before = bytes.remaining();
            let ghost written = self.written();
            let first = bytes.next();
            let second = bytes.next();
            let encrypted = match (first, second) {
                (Some(c0), Some(c1)) => {
                    assert(bytes.remaining() =~= before.skip(2));
                    self.algorithm.encrypt_chars(c0, Some(c1))
                },
                (Some(c0), None) => self.algorithm.encrypt_chars(c0, None),
                _ => {
                    assert(written + encrypt_spec(self.algorithm(), before) =~= written);
                    return Ok(());
                },
            };
            write_all(&mut self.to, encrypted.as_slice());
            assert(written + encrypt_spec(self.algorithm(), before) =~= self.written()
                + encrypt_spec(self.algorithm(), bytes.remaining()));
        }
    }

    /// Hands the sink back.
    pub fn into_inner(self) -> (to: Vec<u8>)
        ensures
            to@ == self.written(),
    {
        self.to
    }
}

/// The packed form of `to_encrypt` as text. Fails where that form is not
/// UTF-8.
pub fn encrypt_string<A, const N: usize>(to_encrypt: &str, algorithm: A) -> (result: Result<
    String,
    CipherError,
>) where A: Algorithm<N>
    ensures
        text_of(result) == encrypted_text(packer(algorithm), to_encrypt@),
{
    let input = to_encrypt.as_bytes();
    let result: Vec<u8> = match checked_encrypt_size::<N>(input.len()) {
        Some(buf_size) => Vec::with_capacity(buf_size),
        None => Vec::new(),
    };
    let mut encrypter = Encrypter::new(result, algorithm);
    let _ = encrypter.encrypt(input);
    let result = encrypter.into_inner();
    assert(result@ =~= encrypt_spec(algorithm, input@));
    from_utf8_output(result)
}

/// The number of bytes that packing `num_bytes` bytes gives, `N` bytes to a
/// unit.
pub fn encrypt_size<const N: usize>(num_bytes: usize) -> (size: usize)
    requires
        encrypt_size_spec(N as nat, num_bytes as nat) <= usize::MAX,
    ensures
        size == encrypt_size_spec(N as nat, num_bytes as nat),
{
    let num_encrypted_chars_needed: usize = if num_bytes % 2 == 0 {
        num_bytes / 2
    } else {
        (num_bytes / 2) + 1
    };
    assert(num_encrypted_chars_needed == (num_bytes + 1) / 2);
    num_encrypted_chars_needed * N
}

/// The number of bytes that packing `num_bytes` bytes gives, `N` bytes to a
/// unit, or nothing where that number is too large for a `usize`.
pub fn checked_encrypt_size<const N: usize>(num_bytes: usize) -> (size: Option<usize>)
    ensures
        match size {
            Some(size) => size == encrypt_size_spec(N as nat, num_bytes as nat),
            None => encrypt_size_spec(N as nat, num_bytes as nat) > usize::MAX,
        },
{
    let num_encrypted_chars_needed: usize = num_bytes / 2 + num_bytes % 2;
    assert(num_encrypted_chars_needed == (num_bytes + 1) / 2);
    match num_encrypted_chars_needed.checked_mul(N) {
        Some(_) => Some(encrypt_size::<N>(num_bytes)),
        None => None,
    }
}

} // verus!
