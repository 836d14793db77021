use vstd::prelude::*;

verus! {

/// A buffered sink over the active segment that tracks the offset at which
/// the next append lands. `flush` hands the buffered bytes over to be written
/// at the end of the segment.
pub struct BufWriterWithPos {
    pos: u64,
    buf: Vec<u8>,
}

impl BufWriterWithPos {
    /// The offset at which the next append lands.
    pub closed spec fn pos(&self) -> u64 {
        self.pos
    }

    /// The bytes appended since the last flush.
    pub closed spec fn pending(&self) -> Seq<u8> {
        self.buf@
    }

    /// A writer over a segment whose current end is at `pos`.
    pub fn new(pos: u64) -> (r: Self)
        ensures
            r.pos() == pos,
            r.pending() == Seq::<u8>::empty(),
    {
        BufWriterWithPos { pos, buf: Vec::new() }
    }

    pub fn get_pos(&self) -> (r: u64)
        ensures
            r == self.pos(),
    {
        self.pos
    }

    /// Appends all of `data`; the position advances by exactly its length.
    pub fn write(&mut self, data: &[u8])
        requires
            old(self).pos() + data@.len() <= u64::MAX,
        ensures
            final(self).pos() == old(self).pos() + data@.len(),
            final(self).pending() == old(self).pending() + data@,
    {
        let mut i: usize = 0;
        while i < data.len()
            invariant
                i <= data@.len(),
                self.pos == old(self).pos + i,
                self.buf@ == old(self).buf@ + data@.subrange(0, i as int),
                old(self).pos + data@.len() <= u64::MAX,
            decreases data@.len() - i,
        {
            self.buf.push(data[i]);
            self.pos = self.pos + 1;
            i = i + 1;
            assert(self.buf@ =~= old(self).buf@ + data@.subrange(0, i as int));
        }
        assert(data@.subrange(0, data@.len() as int) =~= data@);
    }

    /// Releases the buffered bytes, in order; the position is unchanged.
    pub fn flush(&mut self) -> (r: Vec<u8>)
        ensures
            r@ == old(self).pending(),
            final(self).pending() == Seq::<u8>::empty(),
            final(self).pos() == old(self).pos(),
    {
        let mut out: Vec<u8> = Vec::new();
        std::mem::swap(&mut out, &mut self.buf);
        out
    }
}

} // verus!
