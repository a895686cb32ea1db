//! A byte source that is read once, front to back.

use vstd::prelude::*;

verus! {

/// The bytes of a slice, handed out one at a time. Once the end is
/// reached, every further read reports the end again.
pub struct ByteSource<'a> {
    data: &'a [u8],
    pos: usize,
}

impl<'a> ByteSource<'a> {
    /// The position is never behind the end.
    #[verifier::type_invariant]
    spec fn well_formed(&self) -> bool {
        self.pos <= self.data@.len()
    }

    /// The bytes that have not been read yet.
    pub closed spec fn remaining(&self) -> Seq<u8> {
        self.data@.skip(self.pos as int)
    }

    /// A source that hands out `data`.
    pub fn new(data: &'a [u8]) -> (source: Self)
        ensures
            source.remaining() == data@,
    {
        let source = ByteSource { data, pos: 0 };
        assert(data@.skip(0) =~= data@);
        source
    }

    /// The next byte, or nothing at the end.
    pub fn next(&mut self) -> (byte: Option<u8>)
        ensures
            match byte {
                Some(b) => old(self).remaining().len() > 0 && b == old(self).remaining()[0]
                    && final(self).remaining() == old(self).remaining().skip(1),
                None => old(self).remaining().len() == 0 && final(self).remaining() == old(
                    self,
                ).remaining(),
            },
    {
        proof {
            use_type_invariant(&*self);
        }
        if self.pos < self.data.len() {
            let b: u8 = self.data[self.pos];
            self.pos = self.pos + 1;
            assert(self.remaining() =~= old(self).remaining().skip(1));
            Some(b)
        } else {
            assert(old(self).remaining().len() == 0);
            None
        }
    }
}

} // verus!
