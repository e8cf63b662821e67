//! What the sequence of scan windows guarantees: each window is the slice of
//! the source at its base, and every short enough byte run lies whole inside
//! some window, chunk boundaries notwithstanding.
use vstd::prelude::*;

use crate::source::{lemma_read_range_len, read_range};
use crate::window::{saturating_diff, tail_of, ScanWindow};

verus! {

/// A window as the scan sees it: its bytes and the absolute offset of the first.
pub struct WindowView {
    pub base: int,
    pub bytes: Seq<u8>,
}

/// The windows formed by reading `data` from `pos` in chunks of `chunk`
/// bytes, each window being the carried `overlap` followed by the new chunk,
/// and the last `o` bytes of each chunk carried to the next window (this is
/// how [`crate::window::ScanWindow::next`] forms them).
pub open spec fn windows_from(chunk: int, o: int, data: Seq<u8>, pos: int, overlap: Seq<u8>) -> Seq<WindowView>
    decreases data.len() - pos,
{
    if pos < 0 || chunk <= 0 || pos >= data.len() {
        Seq::empty()
    } else {
        let new_bytes = read_range(data, pos, chunk);
        let next_pos = if pos + chunk <= data.len() { pos + chunk } else { data.len() as int };
        seq![WindowView { base: saturating_diff(pos, overlap.len() as int), bytes: overlap + new_bytes }]
            + windows_from(chunk, o, data, next_pos, tail_of(new_bytes, o))
    }
}

/// The windows of a whole scan of `data`.
pub open spec fn scan_windows(chunk: int, o: int, data: Seq<u8>) -> Seq<WindowView> {
    windows_from(chunk, o, data, 0, Seq::empty())
}

/// Window `w` is the slice of `data` that starts at `w.base`.
pub open spec fn faithful(data: Seq<u8>, w: WindowView) -> bool {
    &&& 0 <= w.base
    &&& w.base + w.bytes.len() <= data.len()
    &&& w.bytes == data.subrange(w.base, w.base + w.bytes.len())
}

proof fn lemma_windows_from_faithful(chunk: int, o: int, data: Seq<u8>, pos: int, overlap: Seq<u8>)
    requires
        0 <= o,
        overlap.len() <= pos <= data.len(),
        overlap == data.subrange(pos - overlap.len(), pos),
    ensures
        forall|k: int|
            0 <= k < windows_from(chunk, o, data, pos, overlap).len() ==> faithful(
                data,
                #[trigger] windows_from(chunk, o, data, pos, overlap)[k],
            ),
    decreases data.len() - pos,
{
    if !(pos < 0 || chunk <= 0 || pos >= data.len()) {
        let new_bytes = read_range(data, pos, chunk);
        lemma_read_range_len(data, pos, chunk);
        let next_pos = if pos + chunk <= data.len() { pos + chunk } else { data.len() as int };
        let tail = tail_of(new_bytes, o);
        assert(tail =~= data.subrange(next_pos - tail.len(), next_pos));
        lemma_windows_from_faithful(chunk, o, data, next_pos, tail);
        let first = WindowView { base: saturating_diff(pos, overlap.len() as int), bytes: overlap + new_bytes };
        assert(first.bytes =~= data.subrange(first.base, first.base + first.bytes.len()));
        let rest = windows_from(chunk, o, data, next_pos, tail);
        let all = windows_from(chunk, o, data, pos, overlap);
        assert(all == seq![first] + rest);
        assert forall|k: int| 0 <= k < all.len() implies faithful(data, #[trigger] all[k]) by {
            if k > 0 {
                assert(all[k] == rest[k - 1]);
            }
        }
    }
}

/// Every window of a scan is the slice of the source that starts at its base.
pub proof fn lemma_scan_windows_faithful(chunk: int, o: int, data: Seq<u8>)
    requires
        0 <= o,
    ensures
        forall|k: int|
            0 <= k < scan_windows(chunk, o, data).len() ==> faithful(
                data,
                #[trigger] scan_windows(chunk, o, data)[k],
            ),
{
    assert(Seq::<u8>::empty() =~= data.subrange(0, 0));
    lemma_windows_from_faithful(chunk, o, data, 0, Seq::empty());
}

/// The overlap actually carried between full chunks: `o`, or a whole chunk
/// when chunks are shorter than `o`.
pub open spec fn carried_len(chunk: int, o: int) -> int {
    if o <= chunk { o } else { chunk }
}

proof fn lemma_windows_from_cover(
    chunk: int,
    o: int,
    data: Seq<u8>,
    pos: int,
    overlap: Seq<u8>,
    i: int,
    len: int,
)
    requires
        chunk > 0,
        0 <= o,
        0 <= pos <= data.len(),
        overlap.len() <= pos,
        pos == 0 || overlap.len() == carried_len(chunk, o),
        pos == 0 ==> overlap.len() == 0,
        1 <= len <= carried_len(chunk, o) + 1,
        pos - overlap.len() <= i,
        pos <= i + len - 1,
        i + len <= data.len(),
    ensures
        exists|k: int|
            0 <= k < windows_from(chunk, o, data, pos, overlap).len() && (#[trigger] windows_from(
                chunk,
                o,
                data,
                pos,
                overlap,
            )[k]).base <= i && i + len <= windows_from(chunk, o, data, pos, overlap)[k].base
                + windows_from(chunk, o, data, pos, overlap)[k].bytes.len(),
    decreases data.len() - pos,
{
    let new_bytes = read_range(data, pos, chunk);
    lemma_read_range_len(data, pos, chunk);
    let next_pos = if pos + chunk <= data.len() { pos + chunk } else { data.len() as int };
    let tail = tail_of(new_bytes, o);
    let first = WindowView { base: saturating_diff(pos, overlap.len() as int), bytes: overlap + new_bytes };
    let rest = windows_from(chunk, o, data, next_pos, tail);
    let all = windows_from(chunk, o, data, pos, overlap);
    assert(all == seq![first] + rest);
    if i + len - 1 < next_pos {
        assert(all[0] == first);
    } else {
        assert(next_pos == pos + chunk);
        lemma_windows_from_cover(chunk, o, data, next_pos, tail, i, len);
        let k = choose|k: int|
            0 <= k < rest.len() && (#[trigger] rest[k]).base <= i && i + len <= rest[k].base
                + rest[k].bytes.len();
        assert(all[k + 1] == rest[k]);
    }
}

/// Every run of at most `min(o, chunk) + 1` consecutive bytes of the source
/// lies entirely within some window of the scan: a pattern no longer than
/// the overlap plus one is never split by a chunk boundary.
pub proof fn lemma_scan_windows_cover(chunk: int, o: int, data: Seq<u8>, i: int, len: int)
    requires
        chunk > 0,
        0 <= o,
        0 <= i,
        1 <= len <= carried_len(chunk, o) + 1,
        i + len <= data.len(),
    ensures
        exists|k: int|
            0 <= k < scan_windows(chunk, o, data).len() && (#[trigger] scan_windows(chunk, o, data)[k]).base
                <= i && i + len <= scan_windows(chunk, o, data)[k].base + scan_windows(
                chunk,
                o,
                data,
            )[k].bytes.len(),
{
    let ws = scan_windows(chunk, o, data);
    lemma_windows_from_cover(chunk, o, data, 0, Seq::<u8>::empty(), i, len);
    assert(ws == windows_from(chunk, o, data, 0, Seq::<u8>::empty()));
    let k = choose|k: int|
        0 <= k < ws.len() && (#[trigger] ws[k]).base <= i && i + len <= ws[k].base + ws[k].bytes.len();
    assert(0 <= k < ws.len() && ws[k].base <= i && i + len <= ws[k].base + ws[k].bytes.len());
}

/// A fresh window is ahead of every window of a scan: the windows that
/// successive [`crate::window::ScanWindow::next`] calls give, from a source
/// read from its start, are [`scan_windows`].
pub proof fn lemma_fresh_window_ahead(w: ScanWindow, data: Seq<u8>)
    requires
        w.consumed() == 0,
        w.carried() == Seq::<u8>::empty(),
    ensures
        w.windows_ahead(data) == scan_windows(w.chunk_len(), w.overlap_len_limit(), data),
{
}

/// Where the `k`-th chunk read from `pos` ends: `pos + (k + 1) * chunk`, or
/// the end of the source.
pub open spec fn chunk_end(chunk: int, data: Seq<u8>, pos: int, k: int) -> int {
    let e = pos + (k + 1) * chunk;
    if e <= data.len() { e } else { data.len() as int }
}

proof fn lemma_windows_from_run(chunk: int, o: int, data: Seq<u8>, pos: int, overlap: Seq<u8>)
    requires
        chunk > 0,
        0 <= o,
        overlap.len() <= pos <= data.len(),
        overlap.len() <= o,
    ensures
        forall|k: int|
            0 <= k < windows_from(chunk, o, data, pos, overlap).len() ==> {
                &&& (#[trigger] windows_from(chunk, o, data, pos, overlap)[k]).base
                    + windows_from(chunk, o, data, pos, overlap)[k].bytes.len() == chunk_end(chunk, data, pos, k)
                &&& windows_from(chunk, o, data, pos, overlap)[k].bytes.len() <= o + chunk
            },
    decreases data.len() - pos,
{
    if pos < data.len() {
        let new_bytes = read_range(data, pos, chunk);
        lemma_read_range_len(data, pos, chunk);
        let next_pos = if pos + chunk <= data.len() { pos + chunk } else { data.len() as int };
        let tail = tail_of(new_bytes, o);
        lemma_windows_from_run(chunk, o, data, next_pos, tail);
        let rest = windows_from(chunk, o, data, next_pos, tail);
        let all = windows_from(chunk, o, data, pos, overlap);
        let first = WindowView { base: saturating_diff(pos, overlap.len() as int), bytes: overlap + new_bytes };
        assert(all == seq![first] + rest);
        assert forall|k: int| 0 <= k < all.len() implies {
            &&& (#[trigger] all[k]).base + all[k].bytes.len() == chunk_end(chunk, data, pos, k)
            &&& all[k].bytes.len() <= o + chunk
        } by {
            if k == 0 {
                assert(all[0] == first);
            } else {
                assert(all[k] == rest[k - 1]);
                assert(next_pos == pos + chunk);
                assert(next_pos + ((k - 1) + 1) * chunk == pos + (k + 1) * chunk) by (nonlinear_arith)
                    requires
                        next_pos == pos + chunk,
                ;
            }
        }
    }
}

/// Over a whole scan, window `k` is the source's bytes at its offsets, holds
/// at most overlap-plus-chunk bytes, and ends where the `k`-th chunk read
/// ends, so that it ends at the total read so far; the first window starts
/// at offset 0.
pub proof fn lemma_scan_windows_run(chunk: int, o: int, data: Seq<u8>)
    requires
        chunk > 0,
        0 <= o,
    ensures
        forall|k: int|
            0 <= k < scan_windows(chunk, o, data).len() ==> {
                &&& faithful(data, #[trigger] scan_windows(chunk, o, data)[k])
                &&& scan_windows(chunk, o, data)[k].base + scan_windows(chunk, o, data)[k].bytes.len()
                    == chunk_end(chunk, data, 0, k)
                &&& scan_windows(chunk, o, data)[k].bytes.len() <= o + chunk
            },
        scan_windows(chunk, o, data).len() > 0 ==> scan_windows(chunk, o, data)[0].base == 0,
{
    lemma_scan_windows_faithful(chunk, o, data);
    lemma_windows_from_run(chunk, o, data, 0, Seq::empty());
    let ws = scan_windows(chunk, o, data);
    if ws.len() > 0 {
        assert(ws == windows_from(chunk, o, data, 0, Seq::<u8>::empty()));
        assert(ws[0].base == saturating_diff(0, 0));
    }
}

} // verus!
