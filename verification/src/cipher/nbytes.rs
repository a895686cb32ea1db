//! A byte source, read as units of a fixed width.

use crate::error::CipherError;
use crate::source::ByteSource;
use vstd::prelude::*;

verus! {

/// The units of a byte source, `N` bytes each, in order. A source that ends
/// inside a unit gives a failure in place of that unit.
pub struct NBytes<'a, const N: usize> {
    bytes: ByteSource<'a>,
}

impl<'a, const N: usize> NBytes<'a, N> {
    /// The bytes that have not been handed out yet.
    pub closed spec fn remaining(&self) -> Seq<u8> {
        self.bytes.remaining()
    }

    /// The units of `reader`.
    pub fn new(reader: &'a [u8]) -> (units: NBytes<'a, N>)
        ensures
            units.remaining() == reader@,
    {
        NBytes { bytes: ByteSource::new(reader) }
    }

    /// The next unit; nothing where no byte is left; a failure where bytes
    /// are left, but fewer than one unit has. The failure uses up the
    /// bytes that are left.
    pub fn next(&mut self) -> (item: Option<Result<[u8; N], CipherError>>)
        ensures
            match item {
                Some(Ok(encrypted)) => {
                    &&& old(self).remaining().len() >= N
                    &&& encrypted@ == old(self).remaining().take(N as int)
                    &&& final(self).remaining() == old(self).remaining().skip(N as int)
                },
                Some(Err(e)) => {
                    &&& 0 < old(self).remaining().len() < N
                    &&& e == (CipherError::TruncatedCharacter {
                        expected: N,
                        found: old(self).remaining().len() as usize,
                    })
                    &&& final(self).remaining().len() == 0
                },
                None => {
                    &&& N > 0
                    &&& old(self).remaining().len() == 0
                    &&& final(self).remaining().len() == 0
                },
            },
    {
        let mut encrypted: [u8; N] = [0;N];
        let mut i: usize = 0;
        while i < N
            invariant
                i <= N,
                old(self).remaining().len() >= i,
                self.remaining() == old(self).remaining().skip(i as int),
                encrypted@.take(i as int) == old(self).remaining().take(i as int),
            decreases N - i,
        {
            match self.bytes.next() {
                Some(byte) => {
                    encrypted[i] = byte;
                },
                None => {
                    if i == 0 {
                        return None;
                    } else {
                        return Some(insufficent_bytes(i));
                    }
                },
            }
            i = i + 1;
            assert(self.remaining() =~= old(self).remaining().skip(i as int));
            assert(encrypted@.take(i as int) =~= old(self).remaining().take(i as int));
        }
        assert(encrypted@.take(N as int) =~= encrypted@);
        Some(Ok(encrypted))
    }
}

/// The failure for a source that ended after `num_bytes` bytes of a unit of
/// `N` bytes.
pub fn insufficent_bytes<const N: usize>(num_bytes: usize) -> (result: Result<[u8; N], CipherError>)
    ensures
        result == Err::<[u8; N], CipherError>(
            CipherError::TruncatedCharacter { expected: N, found: num_bytes },
        ),
{
    Err(CipherError::TruncatedCharacter { expected: N, found: num_bytes })
}

} // verus!
