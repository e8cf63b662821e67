use vstd::prelude::*;

verus! {

/// The bytes that a read of at most `max` bytes at position `pos` returns
/// from a source holding `data`: nothing at or past the end, otherwise the
/// bytes from `pos` up to `pos + max` or the end, whichever comes first.
pub open spec fn read_range(data: Seq<u8>, pos: int, max: int) -> Seq<u8> {
    if pos >= data.len() {
        Seq::empty()
    } else {
        data.subrange(pos, if pos + max <= data.len() { pos + max } else { data.len() as int })
    }
}

/// How many bytes such a read returns.
pub proof fn lemma_read_range_len(data: Seq<u8>, pos: int, max: int)
    requires
        0 <= pos,
        0 <= max,
    ensures
        pos >= data.len() ==> read_range(data, pos, max).len() == 0,
        pos < data.len() ==> read_range(data, pos, max).len() == (if pos + max <= data.len() {
            max
        } else {
            data.len() - pos
        }),
{
}

/// An in-memory, seekable byte source: a disk image held as bytes together
/// with a read position, read front to back in chunks.
pub struct ByteSource {
    data: Vec<u8>,
    position: u64,
}

impl ByteSource {
    /// The bytes of the source.
    pub closed spec fn content(&self) -> Seq<u8> {
        self.data@
    }

    /// The current read position.
    pub closed spec fn pos(&self) -> int {
        self.position as int
    }

    /// A source over `data`, positioned at its first byte.
    pub fn new(data: Vec<u8>) -> (res: Self)
        ensures
            res.content() == data@,
            res.pos() == 0,
    {
        ByteSource { data, position: 0 }
    }

    /// Number of bytes in the source.
    pub fn len(&self) -> (res: usize)
        ensures
            res == self.content().len(),
    {
        self.data.len()
    }

    /// The current read position.
    pub fn position(&self) -> (res: u64)
        ensures
            res == self.pos(),
    {
        self.position
    }

    /// Moves the read position to `pos` (which may lie past the end) and
    /// returns it.
    pub fn seek(&mut self, pos: u64) -> (res: u64)
        ensures
            res == pos,
            final(self).content() == old(self).content(),
            final(self).pos() == pos,
    {
        self.position = pos;
        pos
    }

    /// Reads at most `max` bytes from the current position and advances the
    /// position past them. An empty result means the source is exhausted.
    pub fn read(&mut self, max: usize) -> (res: Vec<u8>)
        ensures
            res@ == read_range(old(self).content(), old(self).pos(), max as int),
            final(self).content() == old(self).content(),
            final(self).pos() == old(self).pos() + res@.len(),
    {
        let mut out: Vec<u8> = Vec::new();
        let len = self.data.len();
        if self.position >= len as u64 {
            return out;
        }
        let start = self.position as usize;
        let end = if max <= len - start { start + max } else { len };
        let mut i = start;
        while i < end
            invariant
                start <= i <= end <= len,
                len == self.data@.len(),
                start == self.position,
                out@ =~= self.data@.subrange(start as int, i as int),
            decreases end - i,
        {
            out.push(self.data[i]);
            i = i + 1;
        }
        self.position = end as u64;
        out
    }
}

} // verus!
