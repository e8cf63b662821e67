//! What every scan guarantees of the files it reports.
use vstd::prelude::*;

use crate::carved_file::CarvedFile;
use crate::matcher::{all_matches, first_match, lemma_first_match, lemma_matches_from, matches_at};
use crate::scan_model::{
    close_fold, close_from, close_step, footer_for, headers_fold, initial_scan, lemma_sort_by_start,
    overlap_for, scan_model, scan_run, search_fold, search_signature_model, search_step,
    window_step, CloseAcc, PendingFile, ScanModel, SearchAcc,
};
use crate::signature::{FileKind, SignatureModel};
use crate::source::{lemma_read_range_len, read_range};
use crate::window::{saturating_diff, tail_of};

verus! {

/// The header of signature `i` at `start` and the non-empty footer of
/// signature `j` ending at `end`, both of `kind`, with the footer after the
/// header.
pub open spec fn framed_by(sigs: Seq<SignatureModel>, data: Seq<u8>, kind: FileKind, start: int, end: int, i: int, j: int) -> bool {
    &&& 0 <= i < sigs.len()
    &&& 0 <= j < sigs.len()
    &&& sigs[i].kind == kind
    &&& sigs[j].kind == kind
    &&& sigs[i].header.len() > 0
    &&& matches_at(data, sigs[i].header, start)
    &&& sigs[j].footer.len() > 0
    &&& matches_at(data, sigs[j].footer, end - sigs[j].footer.len())
    &&& start + sigs[i].header.len() <= end - sigs[j].footer.len()
}

/// A carved file opens with a header and closes with a footer of its kind,
/// and the footer comes after the header.
pub open spec fn carved_sound(sigs: Seq<SignatureModel>, data: Seq<u8>, c: CarvedFile) -> bool {
    exists|i: int, j: int| #[trigger] framed_by(sigs, data, c.kind, c.offset_start as int, c.offset_end as int, i, j)
}

/// An open file starts with a header of its kind and its footer is looked
/// for after that header.
pub open spec fn pending_sound(sigs: Seq<SignatureModel>, data: Seq<u8>, p: PendingFile) -> bool {
    exists|i: int|
        0 <= i < sigs.len() && #[trigger] sigs[i].kind == p.kind && sigs[i].header.len() > 0 && matches_at(
            data,
            sigs[i].header,
            p.start_abs as int,
        ) && p.body_abs == p.start_abs + sigs[i].header.len()
}

pub open spec fn all_carved_sound(sigs: Seq<SignatureModel>, data: Seq<u8>, s: Seq<CarvedFile>) -> bool {
    forall|k: int| 0 <= k < s.len() ==> carved_sound(sigs, data, #[trigger] s[k])
}

pub open spec fn all_pending_sound(sigs: Seq<SignatureModel>, data: Seq<u8>, s: Seq<PendingFile>) -> bool {
    forall|k: int| 0 <= k < s.len() ==> pending_sound(sigs, data, #[trigger] s[k])
}

/// A window is the slice of the source that starts at its base.
pub open spec fn window_of(data: Seq<u8>, w: Seq<u8>, base: int) -> bool {
    &&& 0 <= base
    &&& base + w.len() <= data.len()
    &&& w == data.subrange(base, base + w.len())
}

proof fn lemma_match_in_window(data: Seq<u8>, w: Seq<u8>, base: int, p: Seq<u8>, k: int)
    requires
        window_of(data, w, base),
        matches_at(w, p, k),
    ensures
        matches_at(data, p, base + k),
{
    assert(data.subrange(base + k, base + k + p.len()) =~= w.subrange(k, k + p.len()));
}

/// The footer used to close a pending file belongs to a signature of its kind.
proof fn lemma_footer_for(sigs: Seq<SignatureModel>, kind: FileKind)
    ensures
        footer_for(sigs, kind).len() > 0 ==> exists|j: int|
            0 <= j < sigs.len() && #[trigger] sigs[j].kind == kind && sigs[j].footer == footer_for(sigs, kind),
    decreases sigs.len(),
{
    if sigs.len() > 0 && sigs[0].kind != kind {
        lemma_footer_for(sigs.drop_first(), kind);
        if footer_for(sigs, kind).len() > 0 {
            let j = choose|j: int|
                0 <= j < sigs.drop_first().len() && #[trigger] sigs.drop_first()[j].kind == kind
                    && sigs.drop_first()[j].footer == footer_for(sigs, kind);
            assert(sigs[j + 1] == sigs.drop_first()[j]);
        }
    }
}

proof fn lemma_close_fold_sound(
    sigs: Seq<SignatureModel>,
    data: Seq<u8>,
    w: Seq<u8>,
    base: int,
    pending: Seq<PendingFile>,
)
    requires
        window_of(data, w, base),
        data.len() <= u64::MAX,
        all_pending_sound(sigs, data, pending),
    ensures
        all_carved_sound(sigs, data, close_fold(sigs, w, base, pending).closed),
        all_pending_sound(sigs, data, close_fold(sigs, w, base, pending).open),
    decreases pending.len(),
{
    if pending.len() > 0 {
        let init = pending.drop_last();
        let p = pending.last();
        assert(all_pending_sound(sigs, data, init)) by {
            assert forall|k: int| 0 <= k < init.len() implies pending_sound(sigs, data, #[trigger] init[k]) by {
                assert(init[k] == pending[k]);
            }
        }
        assert(pending_sound(sigs, data, pending[pending.len() - 1]));
        lemma_close_fold_sound(sigs, data, w, base, init);
        let acc = close_fold(sigs, w, base, init);
        let footer = footer_for(sigs, p.kind);
        let from = close_from(acc.cursors.at(p.kind), p, base);
        lemma_first_match(w, footer, from);
        match first_match(w, footer, from) {
            Some(f) => {
                lemma_footer_for(sigs, p.kind);
                lemma_match_in_window(data, w, base, footer, f);
                let c = CarvedFile {
                    kind: p.kind,
                    offset_start: p.start_abs,
                    offset_end: (base + f + footer.len()) as u64,
                };
                assert(c.offset_end as int == base + f + footer.len());
                let i = choose|i: int|
                    0 <= i < sigs.len() && #[trigger] sigs[i].kind == p.kind && sigs[i].header.len() > 0 && matches_at(
                        data,
                        sigs[i].header,
                        p.start_abs as int,
                    ) && p.body_abs == p.start_abs + sigs[i].header.len();
                let j = choose|j: int|
                    0 <= j < sigs.len() && #[trigger] sigs[j].kind == p.kind && sigs[j].footer == footer_for(sigs, p.kind);
                assert(framed_by(sigs, data, c.kind, c.offset_start as int, c.offset_end as int, i, j));
                assert(carved_sound(sigs, data, c));
                let r = acc.closed.push(c);
                assert forall|k: int| 0 <= k < r.len() implies carved_sound(sigs, data, #[trigger] r[k]) by {
                    if k < acc.closed.len() {
                        assert(r[k] == acc.closed[k]);
                    }
                }
            },
            None => {
                let r = acc.open.push(p);
                assert forall|k: int| 0 <= k < r.len() implies pending_sound(sigs, data, #[trigger] r[k]) by {
                    if k < acc.open.len() {
                        assert(r[k] == acc.open[k]);
                    }
                }
            },
        }
    }
}

proof fn lemma_search_fold_sound(
    sigs: Seq<SignatureModel>,
    i: int,
    data: Seq<u8>,
    w: Seq<u8>,
    base: int,
    known: Set<u64>,
    hs: Seq<int>,
)
    requires
        window_of(data, w, base),
        data.len() <= u64::MAX,
        0 <= i < sigs.len(),
        sigs[i].header.len() > 0,
        forall|k: int| 0 <= k < hs.len() ==> matches_at(w, sigs[i].header, #[trigger] hs[k]),
    ensures
        all_carved_sound(sigs, data, search_fold(sigs[i], w, base, known, hs).found),
        all_pending_sound(sigs, data, search_fold(sigs[i], w, base, known, hs).pending),
    decreases hs.len(),
{
    if hs.len() > 0 {
        let sig = sigs[i];
        let init = hs.drop_last();
        let h = hs.last();
        assert(matches_at(w, sig.header, hs[hs.len() - 1]));
        lemma_search_fold_sound(sigs, i, data, w, base, known, init);
        let acc = search_fold(sig, w, base, known, init);
        let abs = (base + h) as u64;
        lemma_match_in_window(data, w, base, sig.header, h);
        assert(abs as int == base + h);
        if !known.contains(abs) {
            let from = h + sig.header.len();
            lemma_first_match(w, sig.footer, from);
            match first_match(w, sig.footer, from) {
                Some(f) => {
                    lemma_match_in_window(data, w, base, sig.footer, f);
                    let c = CarvedFile {
                        kind: sig.kind,
                        offset_start: abs,
                        offset_end: (base + f + sig.footer.len()) as u64,
                    };
                    assert(c.offset_end as int == base + f + sig.footer.len());
                    assert(framed_by(sigs, data, c.kind, c.offset_start as int, c.offset_end as int, i, i));
                    let r = acc.found.push(c);
                    assert forall|k: int| 0 <= k < r.len() implies carved_sound(sigs, data, #[trigger] r[k]) by {
                        if k < acc.found.len() {
                            assert(r[k] == acc.found[k]);
                        }
                    }
                },
                None => {
                    let q = PendingFile { kind: sig.kind, start_abs: abs, body_abs: (base + h + sig.header.len()) as u64 };
                    assert(pending_sound(sigs, data, q));
                    let r = acc.pending.push(q);
                    assert forall|k: int| 0 <= k < r.len() implies pending_sound(sigs, data, #[trigger] r[k]) by {
                        if k < acc.pending.len() {
                            assert(r[k] == acc.pending[k]);
                        }
                    }
                },
            }
        }
    }
}

proof fn lemma_headers_fold_sound(
    sigs: Seq<SignatureModel>,
    n: int,
    data: Seq<u8>,
    w: Seq<u8>,
    base: int,
    known: Set<u64>,
)
    requires
        window_of(data, w, base),
        data.len() <= u64::MAX,
        0 <= n <= sigs.len(),
    ensures
        all_carved_sound(sigs, data, headers_fold(sigs.take(n), w, base, known).found),
        all_pending_sound(sigs, data, headers_fold(sigs.take(n), w, base, known).pending),
    decreases n,
{
    if n > 0 {
        lemma_headers_fold_sound(sigs, n - 1, data, w, base, known);
        assert(sigs.take(n).drop_last() =~= sigs.take(n - 1));
        assert(sigs.take(n).last() == sigs[n - 1]);
        let a = headers_fold(sigs.take(n - 1), w, base, known);
        let b = search_signature_model(sigs[n - 1], w, base, known);
        if sigs[n - 1].header.len() > 0 {
            let hs = all_matches(w, sigs[n - 1].header);
            lemma_matches_from(w, sigs[n - 1].header, 0);
            lemma_search_fold_sound(sigs, n - 1, data, w, base, known, hs);
        }
        let f = a.found + b.found;
        assert forall|k: int| 0 <= k < f.len() implies carved_sound(sigs, data, #[trigger] f[k]) by {
            if k < a.found.len() {
                assert(f[k] == a.found[k]);
            } else {
                assert(f[k] == b.found[k - a.found.len()]);
            }
        }
        let p = a.pending + b.pending;
        assert forall|k: int| 0 <= k < p.len() implies pending_sound(sigs, data, #[trigger] p[k]) by {
            if k < a.pending.len() {
                assert(p[k] == a.pending[k]);
            } else {
                assert(p[k] == b.pending[k - a.pending.len()]);
            }
        }
    }
}

proof fn lemma_window_step_sound(
    sigs: Seq<SignatureModel>,
    data: Seq<u8>,
    st: ScanModel,
    w: Seq<u8>,
    base: int,
)
    requires
        window_of(data, w, base),
        data.len() <= u64::MAX,
        all_carved_sound(sigs, data, st.carved),
        all_pending_sound(sigs, data, st.pending),
    ensures
        all_carved_sound(sigs, data, window_step(sigs, st, w, base).carved),
        all_pending_sound(sigs, data, window_step(sigs, st, w, base).pending),
{
    lemma_close_fold_sound(sigs, data, w, base, st.pending);
    lemma_headers_fold_sound(sigs, sigs.len() as int, data, w, base, st.known);
    assert(sigs.take(sigs.len() as int) =~= sigs);
    let c = close_fold(sigs, w, base, st.pending);
    let h = headers_fold(sigs, w, base, st.known);
    let carved = st.carved + c.closed + h.found;
    assert forall|k: int| 0 <= k < carved.len() implies carved_sound(sigs, data, #[trigger] carved[k]) by {
        if k < st.carved.len() {
            assert(carved[k] == st.carved[k]);
        } else if k < st.carved.len() + c.closed.len() {
            assert(carved[k] == c.closed[k - st.carved.len()]);
        } else {
            assert(carved[k] == h.found[k - st.carved.len() - c.closed.len()]);
        }
    }
    let pending = c.open + h.pending;
    assert forall|k: int| 0 <= k < pending.len() implies pending_sound(sigs, data, #[trigger] pending[k]) by {
        if k < c.open.len() {
            assert(pending[k] == c.open[k]);
        } else {
            assert(pending[k] == h.pending[k - c.open.len()]);
        }
    }
}

pub(crate) proof fn lemma_scan_run_sound(
    sigs: Seq<SignatureModel>,
    chunk: int,
    o: int,
    data: Seq<u8>,
    pos: int,
    overlap: Seq<u8>,
    st: ScanModel,
)
    requires
        data.len() <= u64::MAX,
        0 <= o,
        overlap.len() <= pos <= data.len(),
        overlap == data.subrange(pos - overlap.len(), pos),
        all_carved_sound(sigs, data, st.carved),
        all_pending_sound(sigs, data, st.pending),
    ensures
        all_carved_sound(sigs, data, scan_run(sigs, chunk, o, data, pos, overlap, st).carved),
        all_pending_sound(sigs, data, scan_run(sigs, chunk, o, data, pos, overlap, st).pending),
    decreases data.len() - pos,
{
    if !(chunk <= 0 || pos >= data.len()) {
        let new_bytes = read_range(data, pos, chunk);
        lemma_read_range_len(data, pos, chunk);
        let w = overlap + new_bytes;
        let base = saturating_diff(pos, overlap.len() as int);
        let next_pos = if pos + chunk <= data.len() { pos + chunk } else { data.len() as int };
        assert(w =~= data.subrange(base, base + w.len()));
        lemma_window_step_sound(sigs, data, st, w, base);
        let tail = tail_of(new_bytes, o);
        assert(tail =~= data.subrange(next_pos - tail.len(), next_pos));
        lemma_scan_run_sound(sigs, chunk, o, data, next_pos, tail, window_step(sigs, st, w, base));
    }
}

/// Every file a scan reports opens, at its starting offset, with the header
/// of a registered signature of its kind, and closes, just before its ending
/// offset, with the (non-empty) footer of a registered signature of its kind.
pub proof fn lemma_scan_sound(sigs: Seq<SignatureModel>, chunk: int, data: Seq<u8>)
    requires
        data.len() <= u64::MAX,
    ensures
        all_carved_sound(sigs, data, scan_model(sigs, chunk, data)),
{
    if !(sigs.len() == 0 || chunk <= 0) {
        let run = scan_run(sigs, chunk, overlap_for(sigs), data, 0, Seq::empty(), initial_scan());
        assert(Seq::<u8>::empty() =~= data.subrange(0, 0));
        lemma_scan_run_sound(sigs, chunk, overlap_for(sigs), data, 0, Seq::empty(), initial_scan());
        lemma_sort_by_start(run.carved);
        let sorted = scan_model(sigs, chunk, data);
        assert forall|k: int| 0 <= k < sorted.len() implies carved_sound(sigs, data, #[trigger] sorted[k]) by {
            broadcast use vstd::seq_lib::group_to_multiset_ensures;
            assert(sorted.to_multiset().count(sorted[k]) > 0);
            assert(run.carved.to_multiset().count(sorted[k]) > 0);
            assert(run.carved.contains(sorted[k]));
            let j = choose|j: int| 0 <= j < run.carved.len() && run.carved[j] == sorted[k];
            assert(carved_sound(sigs, data, run.carved[j]));
        }
    }
}

} // verus!
