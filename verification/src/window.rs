use vstd::prelude::*;

use crate::source::{lemma_read_range_len, read_range, ByteSource};
use crate::window_laws::{windows_from, WindowView};

verus! {

/// The content of a single scan window: the tail of the previous chunk
/// (overlap) followed by the bytes of the current chunk, together with the
/// absolute source offset of its first byte.
pub struct WindowSlice {
    bytes: Vec<u8>,
    /// Absolute disk offset of `bytes[0]`.
    base: u64,
}

impl WindowSlice {
    /// The bytes of the window.
    pub closed spec fn content(&self) -> Seq<u8> {
        self.bytes@
    }

    /// The absolute offset of the window's first byte.
    pub closed spec fn base_offset(&self) -> int {
        self.base as int
    }

    /// A window holding `bytes` whose first byte sits at offset `base`.
    pub fn from_parts(bytes: Vec<u8>, base: u64) -> (res: Self)
        ensures
            res.content() == bytes@,
            res.base_offset() == base,
    {
        WindowSlice { bytes, base }
    }

    /// Returns a slice over the window bytes.
    pub fn bytes(&self) -> (res: &[u8])
        ensures
            res@ == self.content(),
    {
        self.bytes.as_slice()
    }

    /// Converts a local index within this window into an absolute byte offset
    /// within the source device or image.
    pub fn absolute_offset(&self, local_idx: usize) -> (res: u64)
        requires
            self.base_offset() + local_idx <= u64::MAX,
        ensures
            res == self.base_offset() + local_idx,
    {
        self.base + local_idx as u64
    }
}

/// The last `min(keep, bytes.len())` bytes of `bytes`.
pub open spec fn tail_of(bytes: Seq<u8>, keep: int) -> Seq<u8> {
    bytes.subrange(if bytes.len() >= keep { bytes.len() - keep } else { 0 }, bytes.len() as int)
}

/// `a - b`, or 0 when `b > a`.
pub open spec fn saturating_diff(a: int, b: int) -> int {
    if a >= b { a - b } else { 0 }
}

/// Reads a source in fixed-size chunks while keeping an overlap region
/// between consecutive windows, so that a byte pattern spanning a chunk
/// boundary is fully visible within a single [`WindowSlice`].
///
/// The overlap size must be at least `max_pattern_length - 1`.
pub struct ScanWindow {
    overlap_size: usize,
    chunk_size: usize,
    overlap: Vec<u8>,
    /// Absolute position in the source **before** the most recent read.
    disk_pos: u64,
}

impl ScanWindow {
    pub closed spec fn overlap_len_limit(&self) -> int {
        self.overlap_size as int
    }

    pub closed spec fn chunk_len(&self) -> int {
        self.chunk_size as int
    }

    /// The bytes carried forward from the previous chunk.
    pub closed spec fn carried(&self) -> Seq<u8> {
        self.overlap@
    }

    /// How many source bytes have been consumed so far.
    pub closed spec fn consumed(&self) -> int {
        self.disk_pos as int
    }

    /// The windows that reading the rest of `data` will give, as
    /// [`windows_from`] forms them from where this window stands.
    pub open spec fn windows_ahead(&self, data: Seq<u8>) -> Seq<WindowView> {
        windows_from(self.chunk_len(), self.overlap_len_limit(), data, self.consumed(), self.carried())
    }

    /// The carried bytes never exceed the overlap size nor what was consumed.
    pub closed spec fn wf(&self) -> bool {
        &&& self.overlap@.len() <= self.overlap_size
        &&& self.overlap@.len() <= self.disk_pos
    }

    /// What well-formedness says of the carried bytes.
    pub proof fn lemma_wf(&self)
        requires
            self.wf(),
        ensures
            self.carried().len() <= self.consumed(),
            self.carried().len() <= self.overlap_len_limit(),
    {
    }

    /// Creates a new `ScanWindow` carrying `overlap_size` bytes between
    /// windows and reading `chunk_size` bytes per iteration.
    pub fn new(overlap_size: usize, chunk_size: usize) -> (res: Self)
        ensures
            res.wf(),
            res.overlap_len_limit() == overlap_size,
            res.chunk_len() == chunk_size,
            res.carried() == Seq::<u8>::empty(),
            res.consumed() == 0,
    {
        ScanWindow { overlap_size, chunk_size, overlap: Vec::new(), disk_pos: 0 }
    }

    /// Forms the next window from `new_bytes`, the bytes just read from the
    /// source: the carried overlap followed by `new_bytes`. Returns `None`
    /// (and changes nothing) when `new_bytes` is empty, i.e. at end of source.
    pub fn push_chunk(&mut self, new_bytes: &[u8]) -> (res: Option<WindowSlice>)
        requires
            old(self).consumed() + new_bytes@.len() <= u64::MAX,
        ensures
            final(self).overlap_len_limit() == old(self).overlap_len_limit(),
            final(self).chunk_len() == old(self).chunk_len(),
            old(self).wf() ==> final(self).wf(),
            new_bytes@.len() == 0 ==> res is None && *final(self) == *old(self),
            new_bytes@.len() > 0 ==> {
                &&& res matches Some(w)
                &&& w.content() == old(self).carried() + new_bytes@
                &&& w.base_offset() == saturating_diff(
                    old(self).consumed(),
                    old(self).carried().len() as int,
                )
                &&& final(self).consumed() == old(self).consumed() + new_bytes@.len()
                &&& final(self).carried() == tail_of(
                    new_bytes@,
                    old(self).overlap_len_limit(),
                )
            },
    {
        let n = new_bytes.len();
        if n == 0 {
            return None;
        }
        let base = self.disk_pos.saturating_sub(self.overlap.len() as u64);
        let mut window_bytes = self.overlap.clone();
        let mut i: usize = 0;
        while i < n
            invariant
                n == new_bytes@.len(),
                i <= n,
                window_bytes@ =~= self.overlap@ + new_bytes@.subrange(0, i as int),
            decreases n - i,
        {
            window_bytes.push(new_bytes[i]);
            i = i + 1;
        }
        self.disk_pos = self.disk_pos + n as u64;
        let tail_start = n.saturating_sub(self.overlap_size);
        let mut tail: Vec<u8> = Vec::new();
        let mut j = tail_start;
        while j < n
            invariant
                n == new_bytes@.len(),
                tail_start <= j <= n,
                tail@ =~= new_bytes@.subrange(tail_start as int, j as int),
            decreases n - j,
        {
            tail.push(new_bytes[j]);
            j = j + 1;
        }
        self.overlap = tail;
        assert(new_bytes@.subrange(0, n as int) =~= new_bytes@);
        Some(WindowSlice { bytes: window_bytes, base })
    }

    /// Reads the next chunk from `source` and returns a [`WindowSlice`]
    /// holding the overlap from the previous call followed by the new bytes;
    /// `None` once the source is exhausted.
    pub fn next(&mut self, source: &mut ByteSource) -> (res: Option<WindowSlice>)
        requires
            old(self).consumed() + read_range(
                old(source).content(),
                old(source).pos(),
                old(self).chunk_len(),
            ).len() <= u64::MAX,
        ensures
            final(source).content() == old(source).content(),
            ({
                let new_bytes = read_range(
                    old(source).content(),
                    old(source).pos(),
                    old(self).chunk_len(),
                );
                &&& final(source).pos() == old(source).pos() + new_bytes.len()
                &&& final(self).overlap_len_limit() == old(self).overlap_len_limit()
                &&& final(self).chunk_len() == old(self).chunk_len()
                &&& (old(self).wf() ==> final(self).wf())
                &&& (new_bytes.len() == 0 ==> res is None && *final(self) == *old(self))
                &&& (new_bytes.len() > 0 ==> {
                    &&& res matches Some(w)
                    &&& w.content() == old(self).carried() + new_bytes
                    &&& w.base_offset() == saturating_diff(
                        old(self).consumed(),
                        old(self).carried().len() as int,
                    )
                    &&& final(self).consumed() == old(self).consumed() + new_bytes.len()
                    &&& final(self).carried() == tail_of(new_bytes, old(self).overlap_len_limit())
                })
            }),
            old(source).pos() == old(self).consumed() ==> match res {
                Some(w) => old(self).windows_ahead(old(source).content()) == seq![
                    WindowView { base: w.base_offset(), bytes: w.content() },
                ] + final(self).windows_ahead(old(source).content()),
                None => old(self).windows_ahead(old(source).content()) == Seq::<WindowView>::empty(),
            },
    {
        let ghost data = source.content();
        let ghost old_self = *self;
        let new_bytes = source.read(self.chunk_size);
        proof {
            lemma_read_range_len(data, old_self.consumed(), old_self.chunk_len());
        }
        self.push_chunk(new_bytes.as_slice())
    }
}

} // verus!
