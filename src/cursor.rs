use vstd::prelude::*;

use crate::error::SaveError;

verus! {

/// A forward-only reader over an owned byte buffer.
pub struct SaveCursor {
    position: usize,
    bytes: Vec<u8>,
}

/// What is left after reading on from `p` to `q` is what was left at `p`,
/// less the bytes in between.
pub proof fn lemma_rest_after(d: Seq<u8>, p: nat, q: nat)
    requires
        p <= q <= d.len(),
    ensures
        d.subrange(q as int, d.len() as int) == d.subrange(p as int, d.len() as int).skip(q - p),
{
    assert(d.subrange(q as int, d.len() as int) =~= d.subrange(p as int, d.len() as int).skip(q - p));
}

impl SaveCursor {
    /// The offset of the next byte to be read.
    pub closed spec fn pos(&self) -> nat {
        self.position as nat
    }

    /// The whole buffer.
    pub closed spec fn data(&self) -> Seq<u8> {
        self.bytes@
    }

    /// The position never passes the end of the buffer.
    pub closed spec fn wf(&self) -> bool {
        self.position <= self.bytes.len()
    }

    /// The bytes that are left to read.
    pub open spec fn rest(&self) -> Seq<u8> {
        self.data().subrange(self.pos() as int, self.data().len() as int)
    }

    pub proof fn lemma_wf_bounds(&self)
        requires
            self.wf(),
        ensures
            self.pos() <= self.data().len(),
            self.rest().len() == self.data().len() - self.pos(),
    {
    }

    pub fn new(bytes: Vec<u8>) -> (r: Self)
        ensures
            r.wf(),
            r.pos() == 0,
            r.data() == bytes@,
            r.rest() == bytes@,
    {
        let r = SaveCursor { position: 0, bytes };
        assert(r.rest() =~= bytes@);
        r
    }

    /// The current offset.
    pub fn position(&self) -> (r: usize)
        ensures
            r == self.pos(),
    {
        self.position
    }

    /// How many bytes are left.
    pub fn remaining(&self) -> (r: usize)
        requires
            self.wf(),
        ensures
            r == self.rest().len(),
    {
        self.bytes.len() - self.position
    }

    /// Copies out the next `num_bytes` bytes and moves past them; fails
    /// without moving where fewer are left.
    pub fn read(&mut self, num_bytes: usize) -> (r: Result<Vec<u8>, SaveError>)
        requires
            old(self).wf(),
        ensures
            final(self).wf(),
            final(self).data() == old(self).data(),
            num_bytes <= old(self).rest().len() ==> (r matches Ok(v) && v@ == old(
                self,
            ).rest().take(num_bytes as int) && final(self).pos() == old(self).pos() + num_bytes),
            num_bytes > old(self).rest().len() ==> (r == Err::<Vec<u8>, SaveError>(
                SaveError::UnexpectedEndOfFile,
            ) && *final(self) == *old(self)),
            final(self).rest() == old(self).rest().skip(final(self).pos() - old(self).pos()),
    {
        let left = self.bytes.len() - self.position;
        if num_bytes > left {
            return Err(SaveError::UnexpectedEndOfFile);
        }
        let end = self.position + num_bytes;
        let mut out: Vec<u8> = Vec::with_capacity(num_bytes);
        let mut i = self.position;
        while i < end
            invariant
                self.position <= i <= end <= self.bytes.len(),
                out@ == self.bytes@.subrange(self.position as int, i as int),
            decreases end - i,
        {
            out.push(self.bytes[i]);
            i = i + 1;
            assert(out@ =~= self.bytes@.subrange(self.position as int, i as int));
        }
        let ghost before = self.rest();
        self.position = end;
        assert(out@ =~= before.take(num_bytes as int));
        assert(self.rest() =~= before.skip(num_bytes as int));
        Ok(out)
    }
}

} // verus!
