//! A byte source, read as pairs.

use crate::cipher::BytePair;
use crate::error::CipherError;
use crate::source::ByteSource;
use vstd::prelude::*;

verus! {

/// The pair that the bytes of `input` start with: its first byte, and the
/// second one where there is one.
pub open spec fn first_pair(input: Seq<u8>) -> BytePair
    recommends
        input.len() > 0,
{
    (
        input[0],
        if input.len() >= 2 {
            Some(input[1])
        } else {
            None
        },
    )
}

/// The number of bytes that the first pair of `input` takes up.
pub open spec fn first_pair_len(input: Seq<u8>) -> int {
    if input.len() >= 2 {
        2
    } else {
        input.len() as int
    }
}

/// The pairs of a byte source, in order. Only the last pair can be without
/// its second byte, and behind the end of the source nothing follows.
pub struct BytePairs<'a> {
    bytes: ByteSource<'a>,
}

impl<'a> BytePairs<'a> {
    /// The bytes that have not been handed out yet.
    pub closed spec fn remaining(&self) -> Seq<u8> {
        self.bytes.remaining()
    }

    /// The pairs of `reader`.
    pub fn new(reader: &'a [u8]) -> (pairs: Self)
        ensures
            pairs.remaining() == reader@,
    {
        BytePairs { bytes: ByteSource::new(reader) }
    }

    /// The next pair, or nothing where no byte is left.
    pub fn next_pair(&mut self) -> (result: Result<Option<BytePair>, CipherError>)
        ensures
            match result {
                Ok(Some(pair)) => {
                    &&& old(self).remaining().len() > 0
                    &&& pair == first_pair(old(self).remaining())
                    &&& final(self).remaining() == old(self).remaining().skip(
                        first_pair_len(old(self).remaining()),
                    )
                },
                Ok(None) => old(self).remaining().len() == 0 && final(self).remaining().len() == 0,
                Err(_) => false,
            },
    {
        let first = self.bytes.next();
        let second = self.bytes.next();
        let pair = match (first, second) {
            (Some(b0), Some(b1)) => {
                assert(self.remaining() =~= old(self).remaining().skip(2));
                Some((b0, Some(b1)))
            },
            (Some(b0), None) => {
                assert(self.remaining() =~= old(self).remaining().skip(1));
                Some((b0, None))
            },
            _ => None,
        };
        Ok(pair)
    }

    /// The next pair, or nothing where no byte is left.
    pub fn next(&mut self) -> (item: Option<Result<BytePair, CipherError>>)
        ensures
            match item {
                Some(Ok(pair)) => {
                    &&& old(self).remaining().len() > 0
                    &&& pair == first_pair(old(self).remaining())
                    &&& final(self).remaining() == old(self).remaining().skip(
                        first_pair_len(old(self).remaining()),
                    )
                },
                Some(Err(_)) => false,
                None => old(self).remaining().len() == 0 && final(self).remaining().len() == 0,
            },
    {
        match self.next_pair() {
            Ok(Some(pair)) => Some(Ok(pair)),
            Ok(None) => None,
            Err(e) => Some(Err(e)),
        }
    }
}

} // verus!
