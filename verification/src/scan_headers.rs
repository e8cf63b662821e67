//! What a scan does with the headers in its source: each occurrence is seen,
//! wherever the chunk boundaries fall, and each is registered once, so that
//! a header seen again in the overlap of the next window is not carved a
//! second time.
use vstd::multiset::Multiset;
use vstd::prelude::*;

use crate::carved_file::CarvedFile;
use crate::matcher::{all_matches, first_match, lemma_matches_from, matches_at};
use crate::scan_model::{
    close_fold, close_from, footer_for, headers_fold, initial_scan, insert_by_start, lemma_sort_by_start,
    max_pattern_len, overlap_for, scan_model, scan_run, search_fold, search_signature_model, search_step,
    sort_by_start, window_step, PendingFile, ScanModel,
};
use crate::scan_laws::{carved_sound, framed_by, lemma_scan_run_sound, pending_sound};
use crate::signature::{supported_models, FileKind, SignatureModel};
use crate::source::{lemma_read_range_len, read_range};
use crate::window::{saturating_diff, tail_of};

verus! {

broadcast use vstd::multiset::group_multiset_axioms;

/// The starting offsets of `s`, each counted as often as it occurs.
pub open spec fn carved_starts(s: Seq<CarvedFile>) -> Multiset<u64>
    decreases s.len(),
{
    if s.len() == 0 {
        Multiset::empty()
    } else {
        carved_starts(s.drop_last()).insert(s.last().offset_start)
    }
}

/// The starting offsets of the files still open in `s`.
pub open spec fn pending_starts(s: Seq<PendingFile>) -> Multiset<u64>
    decreases s.len(),
{
    if s.len() == 0 {
        Multiset::empty()
    } else {
        pending_starts(s.drop_last()).insert(s.last().start_abs)
    }
}

/// The offsets in `s`, each counted as often as it occurs.
pub open spec fn offsets(s: Seq<u64>) -> Multiset<u64>
    decreases s.len(),
{
    if s.len() == 0 {
        Multiset::empty()
    } else {
        offsets(s.drop_last()).insert(s.last())
    }
}

/// `a` is the beginning of `b`.
pub open spec fn is_prefix(a: Seq<u8>, b: Seq<u8>) -> bool {
    a.len() <= b.len() && b.subrange(0, a.len() as int) == a
}

/// No two registered signatures can find a header at the same place: no
/// non-empty header is the beginning of another signature's header.
pub open spec fn headers_exclusive(sigs: Seq<SignatureModel>) -> bool {
    forall|i: int, j: int|
        0 <= i < sigs.len() && 0 <= j < sigs.len() && i != j && sigs[i].header.len() > 0
            && sigs[j].header.len() > 0 ==> !is_prefix(#[trigger] sigs[i].header, #[trigger] sigs[j].header)
}

/// Every file carved or still open starts at a distinct offset, and those
/// offsets are exactly the registered headers.
pub open spec fn starts_unique(st: ScanModel) -> bool {
    forall|v: u64|
        {
            let n = #[trigger] carved_starts(st.carved).add(pending_starts(st.pending)).count(v);
            n <= 1 && (n > 0 <==> st.known.contains(v))
        }
}

proof fn lemma_carved_starts_concat(a: Seq<CarvedFile>, b: Seq<CarvedFile>)
    ensures
        carved_starts(a + b) =~= carved_starts(a).add(carved_starts(b)),
    decreases b.len(),
{
    if b.len() > 0 {
        lemma_carved_starts_concat(a, b.drop_last());
        assert((a + b).drop_last() =~= a + b.drop_last());
    } else {
        assert(a + b =~= a);
    }
}

proof fn lemma_pending_starts_concat(a: Seq<PendingFile>, b: Seq<PendingFile>)
    ensures
        pending_starts(a + b) =~= pending_starts(a).add(pending_starts(b)),
    decreases b.len(),
{
    if b.len() > 0 {
        lemma_pending_starts_concat(a, b.drop_last());
        assert((a + b).drop_last() =~= a + b.drop_last());
    } else {
        assert(a + b =~= a);
    }
}

proof fn lemma_carved_starts_push(s: Seq<CarvedFile>, x: CarvedFile)
    ensures
        carved_starts(s.push(x)) == carved_starts(s).insert(x.offset_start),
{
    assert(s.push(x).drop_last() =~= s);
}

proof fn lemma_pending_starts_push(s: Seq<PendingFile>, x: PendingFile)
    ensures
        pending_starts(s.push(x)) == pending_starts(s).insert(x.start_abs),
{
    assert(s.push(x).drop_last() =~= s);
}

proof fn lemma_offsets_push(s: Seq<u64>, x: u64)
    ensures
        offsets(s.push(x)) == offsets(s).insert(x),
{
    assert(s.push(x).drop_last() =~= s);
}

proof fn lemma_offsets_concat(a: Seq<u64>, b: Seq<u64>)
    ensures
        offsets(a + b) =~= offsets(a).add(offsets(b)),
    decreases b.len(),
{
    if b.len() > 0 {
        lemma_offsets_concat(a, b.drop_last());
        assert((a + b).drop_last() =~= a + b.drop_last());
    } else {
        assert(a + b =~= a);
    }
}

/// An offset is counted if and only if it occurs; with no repetition, at
/// most once.
proof fn lemma_offsets_count(s: Seq<u64>, v: u64)
    ensures
        offsets(s).count(v) > 0 <==> s.contains(v),
        (forall|k: int, l: int| 0 <= k < l < s.len() ==> s[k] != s[l]) ==> offsets(s).count(v) <= 1,
    decreases s.len(),
{
    if s.len() > 0 {
        let init = s.drop_last();
        lemma_offsets_count(init, v);
        if offsets(s).count(v) > 0 && v != s.last() {
            let k = choose|k: int| 0 <= k < init.len() && init[k] == v;
            assert(s[k] == v);
        }
        if s.contains(v) && v != s.last() {
            let k = choose|k: int| 0 <= k < s.len() && s[k] == v;
            assert(init[k] == v);
        }
        if forall|k: int, l: int| 0 <= k < l < s.len() ==> s[k] != s[l] {
            assert forall|k: int, l: int| 0 <= k < l < init.len() implies init[k] != init[l] by {
                assert(s[k] != s[l]);
            }
            if v == s.last() && offsets(init).count(v) > 0 {
                let k = choose|k: int| 0 <= k < init.len() && init[k] == v;
                assert(s[k] != s[s.len() - 1]);
            }
        }
    }
}

/// Two files of `s` with one starting offset count that offset twice.
proof fn lemma_carved_starts_repeat(s: Seq<CarvedFile>, i: int, j: int)
    requires
        0 <= i < j < s.len(),
        s[i].offset_start == s[j].offset_start,
    ensures
        carved_starts(s).count(s[i].offset_start) >= 2,
    decreases s.len(),
{
    let init = s.drop_last();
    if j < s.len() - 1 {
        lemma_carved_starts_repeat(init, i, j);
        assert(init[i] == s[i]);
    } else {
        lemma_carved_starts_has(init, i);
        assert(init[i] == s[i]);
    }
}

proof fn lemma_carved_starts_has(s: Seq<CarvedFile>, i: int)
    requires
        0 <= i < s.len(),
    ensures
        carved_starts(s).count(s[i].offset_start) >= 1,
    decreases s.len(),
{
    if i < s.len() - 1 {
        lemma_carved_starts_has(s.drop_last(), i);
        assert(s.drop_last()[i] == s[i]);
    }
}

proof fn lemma_insert_by_start_starts(t: Seq<CarvedFile>, x: CarvedFile)
    ensures
        carved_starts(insert_by_start(t, x)) =~= carved_starts(t).insert(x.offset_start),
    decreases t.len(),
{
    if t.len() == 0 {
        assert(seq![x] =~= t.push(x));
        lemma_carved_starts_push(t, x);
    } else if t.last().offset_start <= x.offset_start {
        lemma_carved_starts_push(t, x);
    } else {
        let init = t.drop_last();
        lemma_insert_by_start_starts(init, x);
        lemma_carved_starts_push(insert_by_start(init, x), t.last());
        assert(carved_starts(t) == carved_starts(init).insert(t.last().offset_start));
        assert(carved_starts(init).insert(x.offset_start).insert(t.last().offset_start)
            =~= carved_starts(init).insert(t.last().offset_start).insert(x.offset_start));
    }
}

proof fn lemma_sort_by_start_starts(s: Seq<CarvedFile>)
    ensures
        carved_starts(sort_by_start(s)) =~= carved_starts(s),
    decreases s.len(),
{
    if s.len() > 0 {
        lemma_sort_by_start_starts(s.drop_last());
        lemma_insert_by_start_starts(sort_by_start(s.drop_last()), s.last());
    }
}

/// Closing pending files neither loses nor repeats a starting offset.
proof fn lemma_close_fold_starts(sigs: Seq<SignatureModel>, w: Seq<u8>, base: int, pending: Seq<PendingFile>)
    ensures
        pending_starts(close_fold(sigs, w, base, pending).open).add(
            carved_starts(close_fold(sigs, w, base, pending).closed),
        ) =~= pending_starts(pending),
    decreases pending.len(),
{
    if pending.len() > 0 {
        let init = pending.drop_last();
        let p = pending.last();
        lemma_close_fold_starts(sigs, w, base, init);
        let acc = close_fold(sigs, w, base, init);
        let footer = footer_for(sigs, p.kind);
        match first_match(w, footer, close_from(acc.cursors.at(p.kind), p, base)) {
            Some(f) => {
                lemma_carved_starts_push(
                    acc.closed,
                    CarvedFile {
                        kind: p.kind,
                        offset_start: p.start_abs,
                        offset_end: (base + f + footer.len()) as u64,
                    },
                );
            },
            None => {
                lemma_pending_starts_push(acc.open, p);
            },
        }
    }
}


/// Two patterns found at one place: the shorter is the beginning of the longer.
pub(crate) proof fn lemma_same_place_prefix(w: Seq<u8>, a: Seq<u8>, b: Seq<u8>, p: int)
    requires
        matches_at(w, a, p),
        matches_at(w, b, p),
        a.len() <= b.len(),
    ensures
        is_prefix(a, b),
{
    assert(b.subrange(0, a.len() as int) =~= w.subrange(p, p + a.len()));
}

/// The headers registered by one signature in one window are new, increase,
/// and account for exactly the starts of the files it carves or leaves open.
proof fn lemma_search_fold_unique(sig: SignatureModel, w: Seq<u8>, base: int, known: Set<u64>, hs: Seq<int>)
    requires
        0 <= base,
        base + w.len() <= u64::MAX,
        forall|k: int| 0 <= k < hs.len() ==> matches_at(w, sig.header, #[trigger] hs[k]),
        forall|k: int, l: int| 0 <= k < l < hs.len() ==> hs[k] < hs[l],
    ensures
        ({
            let r = search_fold(sig, w, base, known, hs);
            &&& carved_starts(r.found).add(pending_starts(r.pending)) =~= offsets(r.headers)
            &&& forall|k: int| 0 <= k < r.headers.len() ==> !known.contains(#[trigger] r.headers[k])
            &&& forall|k: int|
                0 <= k < r.headers.len() ==> exists|t: int|
                    0 <= t < hs.len() && #[trigger] r.headers[k] as int == base + hs[t]
            &&& forall|k: int, l: int| 0 <= k < l < r.headers.len() ==> r.headers[k] < r.headers[l]
        }),
    decreases hs.len(),
{
    if hs.len() > 0 {
        let init = hs.drop_last();
        let h = hs.last();
        assert(matches_at(w, sig.header, hs[hs.len() - 1]));
        lemma_search_fold_unique(sig, w, base, known, init);
        let acc = search_fold(sig, w, base, known, init);
        let abs = (base + h) as u64;
        assert(abs as int == base + h);
        let r = search_fold(sig, w, base, known, hs);
        assert(r == search_step(sig, w, base, known, acc, h));
        if known.contains(abs) {
            assert forall|k: int| 0 <= k < r.headers.len() implies exists|t: int|
                0 <= t < hs.len() && #[trigger] r.headers[k] as int == base + hs[t] by {
                let t = choose|t: int| 0 <= t < init.len() && acc.headers[k] as int == base + init[t];
                assert(init[t] == hs[t]);
            }
        } else {
            lemma_offsets_push(acc.headers, abs);
            assert forall|k: int| 0 <= k < acc.headers.len() implies #[trigger] acc.headers[k] < abs by {
                let t = choose|t: int| 0 <= t < init.len() && acc.headers[k] as int == base + init[t];
                assert(hs[t] < hs[hs.len() - 1]);
            }
            assert forall|k: int| 0 <= k < r.headers.len() implies exists|t: int|
                0 <= t < hs.len() && #[trigger] r.headers[k] as int == base + hs[t] by {
                if k < acc.headers.len() {
                    let t = choose|t: int| 0 <= t < init.len() && acc.headers[k] as int == base + init[t];
                    assert(init[t] == hs[t]);
                    assert(r.headers[k] == acc.headers[k]);
                } else {
                    assert(r.headers[k] as int == base + hs[hs.len() - 1]);
                }
            }
            assert forall|k: int, l: int| 0 <= k < l < r.headers.len() implies r.headers[k] < r.headers[l] by {
                assert(r.headers[k] == acc.headers[k]);
                if l < acc.headers.len() {
                    assert(r.headers[l] == acc.headers[l]);
                }
            }
            assert forall|k: int| 0 <= k < r.headers.len() implies !known.contains(#[trigger] r.headers[k]) by {
                if k < acc.headers.len() {
                    assert(r.headers[k] == acc.headers[k]);
                }
            }
            match first_match(w, sig.footer, h + sig.header.len()) {
                Some(f) => {
                    lemma_carved_starts_push(
                        acc.found,
                        CarvedFile {
                            kind: sig.kind,
                            offset_start: abs,
                            offset_end: (base + f + sig.footer.len()) as u64,
                        },
                    );
                },
                None => {
                    lemma_pending_starts_push(
                        acc.pending,
                        PendingFile { kind: sig.kind, start_abs: abs, body_abs: (base + h + sig.header.len()) as u64 },
                    );
                },
            }
        }
    }
}


/// The headers registered in one window are new, pairwise distinct, each
/// found by some signature, and account for exactly the starts of the files
/// carved or left open by the header search.
proof fn lemma_headers_fold_unique(
    sigs: Seq<SignatureModel>,
    n: int,
    w: Seq<u8>,
    base: int,
    known: Set<u64>,
)
    requires
        0 <= base,
        base + w.len() <= u64::MAX,
        0 <= n <= sigs.len(),
        headers_exclusive(sigs),
    ensures
        ({
            let r = headers_fold(sigs.take(n), w, base, known);
            &&& carved_starts(r.found).add(pending_starts(r.pending)) =~= offsets(r.headers)
            &&& forall|k: int| 0 <= k < r.headers.len() ==> !known.contains(#[trigger] r.headers[k])
            &&& forall|k: int|
                0 <= k < r.headers.len() ==> exists|i: int|
                    0 <= i < n && sigs[i].header.len() > 0 && matches_at(
                        w,
                        #[trigger] sigs[i].header,
                        (#[trigger] r.headers[k]) - base,
                    )
            &&& forall|k: int, l: int| 0 <= k < l < r.headers.len() ==> r.headers[k] != r.headers[l]
        }),
    decreases n,
{
    if n > 0 {
        lemma_headers_fold_unique(sigs, n - 1, w, base, known);
        assert(sigs.take(n).drop_last() =~= sigs.take(n - 1));
        assert(sigs.take(n).last() == sigs[n - 1]);
        let sig = sigs[n - 1];
        let a = headers_fold(sigs.take(n - 1), w, base, known);
        let b = search_signature_model(sig, w, base, known);
        let r = headers_fold(sigs.take(n), w, base, known);
        assert(r.found == a.found + b.found);
        // what the last signature contributes
        assert(carved_starts(b.found).add(pending_starts(b.pending)) =~= offsets(b.headers)
            && (forall|k: int| 0 <= k < b.headers.len() ==> !known.contains(#[trigger] b.headers[k]))
            && (forall|k: int| 0 <= k < b.headers.len() ==> sig.header.len() > 0
                && matches_at(w, sig.header, #[trigger] b.headers[k] - base))
            && (forall|k: int, l: int| 0 <= k < l < b.headers.len() ==> b.headers[k] != b.headers[l])) by {
            if sig.header.len() > 0 {
                let hs = all_matches(w, sig.header);
                lemma_matches_from(w, sig.header, 0);
                lemma_search_fold_unique(sig, w, base, known, hs);
                assert forall|k: int| 0 <= k < b.headers.len() implies matches_at(
                    w,
                    sig.header,
                    #[trigger] b.headers[k] - base,
                ) by {
                    let t = choose|t: int| 0 <= t < hs.len() && b.headers[k] as int == base + hs[t];
                }
            } else {
                assert(offsets(b.headers) =~= Multiset::<u64>::empty());
                assert(carved_starts(b.found) =~= Multiset::<u64>::empty());
                assert(pending_starts(b.pending) =~= Multiset::<u64>::empty());
            }
        }
        lemma_carved_starts_concat(a.found, b.found);
        lemma_pending_starts_concat(a.pending, b.pending);
        lemma_offsets_concat(a.headers, b.headers);
        let hd = a.headers + b.headers;
        assert(r.headers == hd);
        assert forall|k: int| 0 <= k < hd.len() implies !known.contains(#[trigger] hd[k]) by {
            if k < a.headers.len() {
                assert(hd[k] == a.headers[k]);
            } else {
                assert(hd[k] == b.headers[k - a.headers.len()]);
            }
        }
        assert forall|k: int| 0 <= k < hd.len() implies exists|i: int|
            0 <= i < n && sigs[i].header.len() > 0 && matches_at(
                w,
                #[trigger] sigs[i].header,
                (#[trigger] hd[k]) - base,
            ) by {
            if k < a.headers.len() {
                assert(hd[k] == a.headers[k]);
            } else {
                assert(hd[k] == b.headers[k - a.headers.len()]);
                assert(matches_at(w, sigs[n - 1].header, hd[k] - base));
            }
        }
        assert forall|k: int, l: int| 0 <= k < l < hd.len() implies hd[k] != hd[l] by {
            if l < a.headers.len() {
                assert(hd[k] == a.headers[k] && hd[l] == a.headers[l]);
            } else if k >= a.headers.len() {
                assert(hd[k] == b.headers[k - a.headers.len()] && hd[l] == b.headers[l - a.headers.len()]);
            } else {
                assert(hd[k] == a.headers[k]);
                assert(hd[l] == b.headers[l - a.headers.len()]);
                if hd[k] == hd[l] {
                    let p = hd[k] - base;
                    let i = choose|i: int|
                        0 <= i < n - 1 && sigs[i].header.len() > 0 && matches_at(
                            w,
                            #[trigger] sigs[i].header,
                            a.headers[k] - base,
                        );
                    assert(matches_at(w, sig.header, b.headers[l - a.headers.len()] - base));
                    if sigs[i].header.len() <= sig.header.len() {
                        lemma_same_place_prefix(w, sigs[i].header, sig.header, p);
                        assert(!is_prefix(sigs[i].header, sigs[n - 1].header));
                    } else {
                        lemma_same_place_prefix(w, sig.header, sigs[i].header, p);
                        assert(!is_prefix(sigs[n - 1].header, sigs[i].header));
                    }
                }
            }
        }
    } else {
        assert(offsets(headers_fold(sigs.take(n), w, base, known).headers) =~= Multiset::<u64>::empty());
    }
}


proof fn lemma_window_step_unique(sigs: Seq<SignatureModel>, st: ScanModel, w: Seq<u8>, base: int)
    requires
        0 <= base,
        base + w.len() <= u64::MAX,
        headers_exclusive(sigs),
        starts_unique(st),
    ensures
        starts_unique(window_step(sigs, st, w, base)),
{
    let c = close_fold(sigs, w, base, st.pending);
    let h = headers_fold(sigs, w, base, st.known);
    lemma_close_fold_starts(sigs, w, base, st.pending);
    assert(sigs.take(sigs.len() as int) =~= sigs);
    lemma_headers_fold_unique(sigs, sigs.len() as int, w, base, st.known);
    let next = window_step(sigs, st, w, base);
    lemma_carved_starts_concat(st.carved, c.closed);
    lemma_carved_starts_concat(st.carved + c.closed, h.found);
    lemma_pending_starts_concat(c.open, h.pending);
    let before = carved_starts(st.carved).add(pending_starts(st.pending));
    let after = carved_starts(next.carved).add(pending_starts(next.pending));
    assert(after =~= before.add(offsets(h.headers)));
    assert forall|v: u64| {
        let n = #[trigger] carved_starts(next.carved).add(pending_starts(next.pending)).count(v);
        n <= 1 && (n > 0 <==> next.known.contains(v))
    } by {
        lemma_offsets_count(h.headers, v);
        assert(before.count(v) <= 1);
        assert(before.count(v) > 0 <==> st.known.contains(v));
        if offsets(h.headers).count(v) > 0 {
            let k = choose|k: int| 0 <= k < h.headers.len() && h.headers[k] == v;
            assert(!st.known.contains(h.headers[k]));
            assert(h.headers.to_set().contains(v));
        }
        if h.headers.to_set().contains(v) {
            assert(h.headers.contains(v));
        }
    }
}

proof fn lemma_scan_run_unique(
    sigs: Seq<SignatureModel>,
    chunk: int,
    o: int,
    data: Seq<u8>,
    pos: int,
    overlap: Seq<u8>,
    st: ScanModel,
)
    requires
        data.len() <= u64::MAX,
        0 <= o,
        overlap.len() <= pos <= data.len(),
        overlap == data.subrange(pos - overlap.len(), pos),
        headers_exclusive(sigs),
        starts_unique(st),
    ensures
        starts_unique(scan_run(sigs, chunk, o, data, pos, overlap, st)),
    decreases data.len() - pos,
{
    if !(chunk <= 0 || pos >= data.len()) {
        let new_bytes = read_range(data, pos, chunk);
        lemma_read_range_len(data, pos, chunk);
        let w = overlap + new_bytes;
        let base = saturating_diff(pos, overlap.len() as int);
        let next_pos = if pos + chunk <= data.len() { pos + chunk } else { data.len() as int };
        lemma_window_step_unique(sigs, st, w, base);
        let tail = tail_of(new_bytes, o);
        assert(tail =~= data.subrange(next_pos - tail.len(), next_pos));
        lemma_scan_run_unique(sigs, chunk, o, data, next_pos, tail, window_step(sigs, st, w, base));
    }
}

/// No two files that a scan reports start at the same offset (the list
/// strictly increases by start), although the windows overlap and a header
/// near a chunk boundary is seen twice. This holds whenever no registered
/// header is the beginning of another signature's header, so that two
/// signatures never claim one place.
pub proof fn lemma_scan_unique_starts(sigs: Seq<SignatureModel>, chunk: int, data: Seq<u8>)
    requires
        data.len() <= u64::MAX,
        headers_exclusive(sigs),
    ensures
        forall|i: int, j: int|
            0 <= i < j < scan_model(sigs, chunk, data).len() ==> scan_model(sigs, chunk, data)[i].offset_start
                < scan_model(sigs, chunk, data)[j].offset_start,
{
    if !(sigs.len() == 0 || chunk <= 0) {
        let run = scan_run(sigs, chunk, overlap_for(sigs), data, 0, Seq::empty(), initial_scan());
        assert(Seq::<u8>::empty() =~= data.subrange(0, 0));
        assert(starts_unique(initial_scan())) by {
            assert(carved_starts(Seq::<CarvedFile>::empty()).add(pending_starts(Seq::<PendingFile>::empty()))
                =~= Multiset::<u64>::empty());
        }
        lemma_scan_run_unique(sigs, chunk, overlap_for(sigs), data, 0, Seq::empty(), initial_scan());
        let carved = run.carved;
        let sorted = scan_model(sigs, chunk, data);
        lemma_sort_by_start(carved);
        lemma_sort_by_start_starts(carved);
        assert forall|i: int, j: int| 0 <= i < j < sorted.len() implies sorted[i].offset_start
            < sorted[j].offset_start by {
            if sorted[i].offset_start == sorted[j].offset_start {
                lemma_carved_starts_repeat(sorted, i, j);
                let v = sorted[i].offset_start;
                assert(carved_starts(carved).add(pending_starts(run.pending)).count(v) <= 1);
            }
        }
    }
}


/// The signatures the carver ships with never claim one place: their headers
/// all begin with different bytes.
pub proof fn lemma_supported_headers_exclusive()
    ensures
        headers_exclusive(supported_models()),
{
    let sigs = supported_models();
    assert forall|i: int, j: int|
        0 <= i < sigs.len() && 0 <= j < sigs.len() && i != j && sigs[i].header.len() > 0
            && sigs[j].header.len() > 0 implies !is_prefix(#[trigger] sigs[i].header, #[trigger] sigs[j].header) by {
        if is_prefix(sigs[i].header, sigs[j].header) {
            assert(sigs[j].header.subrange(0, sigs[i].header.len() as int)[0] == sigs[j].header[0]);
            assert(sigs[i].header[0] == sigs[j].header[0]);
        }
    }
}

/// A header of `sig` found at `hs[k]` is either known already or registered.
proof fn lemma_search_fold_registers(sig: SignatureModel, w: Seq<u8>, base: int, known: Set<u64>, hs: Seq<int>)
    ensures
        forall|k: int|
            0 <= k < hs.len() ==> known.contains(((base + #[trigger] hs[k]) as u64)) || search_fold(
                sig,
                w,
                base,
                known,
                hs,
            ).headers.contains((base + hs[k]) as u64),
    decreases hs.len(),
{
    if hs.len() > 0 {
        let init = hs.drop_last();
        lemma_search_fold_registers(sig, w, base, known, init);
        let acc = search_fold(sig, w, base, known, init);
        let r = search_fold(sig, w, base, known, hs);
        assert(r == search_step(sig, w, base, known, acc, hs.last()));
        let abs = (base + hs.last()) as u64;
        assert forall|k: int| 0 <= k < hs.len() implies known.contains(((base + #[trigger] hs[k]) as u64))
            || r.headers.contains((base + hs[k]) as u64) by {
            if !known.contains(abs) {
                assert(r.headers == acc.headers.push(abs));
                assert(r.headers[r.headers.len() - 1] == abs);
                if k < init.len() {
                    assert(init[k] == hs[k]);
                    if acc.headers.contains((base + hs[k]) as u64) {
                        let j = choose|j: int| 0 <= j < acc.headers.len() && acc.headers[j] == (base + hs[k]) as u64;
                        assert(r.headers[j] == acc.headers[j]);
                    }
                }
            } else {
                if k < init.len() {
                    assert(init[k] == hs[k]);
                }
            }
        }
    }
}

/// A header that signature `i` has at `q` in window `w` is, after the
/// header search, known or registered.
proof fn lemma_headers_fold_registers(
    sigs: Seq<SignatureModel>,
    n: int,
    w: Seq<u8>,
    base: int,
    known: Set<u64>,
    i: int,
    q: int,
)
    requires
        0 <= i < n <= sigs.len(),
        sigs[i].header.len() > 0,
        matches_at(w, sigs[i].header, q),
    ensures
        known.contains((base + q) as u64) || headers_fold(sigs.take(n), w, base, known).headers.contains(
            (base + q) as u64,
        ),
    decreases n,
{
    assert(sigs.take(n).drop_last() =~= sigs.take(n - 1));
    assert(sigs.take(n).last() == sigs[n - 1]);
    let a = headers_fold(sigs.take(n - 1), w, base, known);
    let b = search_signature_model(sigs[n - 1], w, base, known);
    let r = headers_fold(sigs.take(n), w, base, known);
    assert(r.headers == a.headers + b.headers);
    let v = (base + q) as u64;
    if i < n - 1 {
        lemma_headers_fold_registers(sigs, n - 1, w, base, known, i, q);
        if a.headers.contains(v) {
            let j = choose|j: int| 0 <= j < a.headers.len() && a.headers[j] == v;
            assert(r.headers[j] == a.headers[j]);
        }
    } else {
        let sig = sigs[n - 1];
        let hs = all_matches(w, sig.header);
        lemma_matches_from(w, sig.header, 0);
        assert(hs.contains(q));
        let k = choose|k: int| 0 <= k < hs.len() && hs[k] == q;
        lemma_search_fold_registers(sig, w, base, known, hs);
        assert(known.contains(((base + hs[k]) as u64)) || b.headers.contains((base + hs[k]) as u64));
        if b.headers.contains(v) {
            let j = choose|j: int| 0 <= j < b.headers.len() && b.headers[j] == v;
            assert(r.headers[a.headers.len() + j] == b.headers[j]);
        }
    }
}

/// What was known stays known.
proof fn lemma_scan_run_known_grows(
    sigs: Seq<SignatureModel>,
    chunk: int,
    o: int,
    data: Seq<u8>,
    pos: int,
    overlap: Seq<u8>,
    st: ScanModel,
    v: u64,
)
    requires
        st.known.contains(v),
    ensures
        scan_run(sigs, chunk, o, data, pos, overlap, st).known.contains(v),
    decreases data.len() - pos,
{
    if !(pos < 0 || chunk <= 0 || pos >= data.len()) {
        let new_bytes = read_range(data, pos, chunk);
        let w = overlap + new_bytes;
        let base = saturating_diff(pos, overlap.len() as int);
        let next_pos = if pos + chunk <= data.len() { pos + chunk } else { data.len() as int };
        lemma_scan_run_known_grows(
            sigs,
            chunk,
            o,
            data,
            next_pos,
            tail_of(new_bytes, o),
            window_step(sigs, st, w, base),
            v,
        );
    }
}

/// The run of windows from `pos` registers the header of signature `i` at
/// `p`, which does not end before the first byte of this window's new chunk
/// and starts no earlier than the window.
proof fn lemma_scan_run_sees(
    sigs: Seq<SignatureModel>,
    chunk: int,
    o: int,
    data: Seq<u8>,
    pos: int,
    overlap: Seq<u8>,
    st: ScanModel,
    i: int,
    p: int,
)
    requires
        chunk > 0,
        0 <= o <= chunk,
        data.len() <= u64::MAX,
        0 <= pos <= data.len(),
        overlap.len() <= pos,
        overlap == data.subrange(pos - overlap.len(), pos),
        pos == 0 || overlap.len() == o,
        pos == 0 ==> overlap.len() == 0,
        0 <= i < sigs.len(),
        1 <= sigs[i].header.len() <= o + 1,
        matches_at(data, sigs[i].header, p),
        pos - overlap.len() <= p,
        pos <= p + sigs[i].header.len() - 1,
    ensures
        scan_run(sigs, chunk, o, data, pos, overlap, st).known.contains(p as u64),
    decreases data.len() - pos,
{
    let hlen = sigs[i].header.len();
    let new_bytes = read_range(data, pos, chunk);
    lemma_read_range_len(data, pos, chunk);
    let next_pos = if pos + chunk <= data.len() { pos + chunk } else { data.len() as int };
    let tail = tail_of(new_bytes, o);
    let w = overlap + new_bytes;
    let base = saturating_diff(pos, overlap.len() as int);
    let next = window_step(sigs, st, w, base);
    if p + hlen - 1 < next_pos {
        // the header lies whole in this window
        assert(w =~= data.subrange(base, base + w.len()));
        let q = p - base;
        assert(w.subrange(q, q + hlen) =~= data.subrange(p, p + hlen));
        assert(matches_at(w, sigs[i].header, q));
        assert(sigs.take(sigs.len() as int) =~= sigs);
        lemma_headers_fold_registers(sigs, sigs.len() as int, w, base, st.known, i, q);
        let h = headers_fold(sigs, w, base, st.known);
        assert((base + q) as u64 == p as u64);
        if h.headers.contains(p as u64) {
            assert(h.headers.to_set().contains(p as u64));
        }
        assert(next.known.contains(p as u64));
        lemma_scan_run_known_grows(sigs, chunk, o, data, next_pos, tail, next, p as u64);
    } else {
        assert(next_pos == pos + chunk);
        assert(tail =~= data.subrange(next_pos - tail.len(), next_pos));
        lemma_scan_run_sees(sigs, chunk, o, data, next_pos, tail, next, i, p);
    }
}

proof fn lemma_header_within_max(sigs: Seq<SignatureModel>, i: int)
    requires
        0 <= i < sigs.len(),
    ensures
        sigs[i].header.len() <= max_pattern_len(sigs),
    decreases sigs.len(),
{
    if i < sigs.len() - 1 {
        lemma_header_within_max(sigs.drop_last(), i);
        assert(sigs.drop_last()[i] == sigs[i]);
    }
}

/// Every occurrence in the source of a registered header is seen by the scan,
/// wherever the chunk boundaries fall: it is the start of a file the scan
/// reports, or of a file still waiting for its footer when the source ends.
/// This holds when chunks are at least as long as the overlap (the longest
/// pattern minus one), so that each window carries a full overlap, and when
/// no registered header is the beginning of another signature's header.
pub proof fn lemma_scan_sees_every_header(sigs: Seq<SignatureModel>, chunk: int, data: Seq<u8>, i: int, p: int)
    requires
        data.len() <= u64::MAX,
        headers_exclusive(sigs),
        chunk > 0,
        chunk >= overlap_for(sigs),
        0 <= i < sigs.len(),
        sigs[i].header.len() > 0,
        matches_at(data, sigs[i].header, p),
    ensures
        (exists|k: int|
            0 <= k < scan_model(sigs, chunk, data).len() && #[trigger] scan_model(sigs, chunk, data)[k].offset_start
                == p) || (exists|k: int|
            0 <= k < scan_run(sigs, chunk, overlap_for(sigs), data, 0, Seq::empty(), initial_scan()).pending.len()
                && #[trigger] scan_run(
                sigs,
                chunk,
                overlap_for(sigs),
                data,
                0,
                Seq::empty(),
                initial_scan(),
            ).pending[k].start_abs == p),
{
    let o = overlap_for(sigs);
    let run = scan_run(sigs, chunk, o, data, 0, Seq::empty(), initial_scan());
    lemma_header_within_max(sigs, i);
    assert(Seq::<u8>::empty() =~= data.subrange(0, 0));
    lemma_scan_run_sees(sigs, chunk, o, data, 0, Seq::empty(), initial_scan(), i, p);
    assert(starts_unique(initial_scan())) by {
        assert(carved_starts(Seq::<CarvedFile>::empty()).add(pending_starts(Seq::<PendingFile>::empty()))
            =~= Multiset::<u64>::empty());
    }
    lemma_scan_run_unique(sigs, chunk, o, data, 0, Seq::empty(), initial_scan());
    let v = p as u64;
    assert(v as int == p);
    let total = carved_starts(run.carved).add(pending_starts(run.pending));
    assert(total.count(v) > 0);
    let sorted = scan_model(sigs, chunk, data);
    if carved_starts(run.carved).count(v) > 0 {
        lemma_sort_by_start_starts(run.carved);
        lemma_carved_starts_index(sorted, v);
    } else {
        lemma_pending_starts_index(run.pending, v);
    }
}

proof fn lemma_carved_starts_index(s: Seq<CarvedFile>, v: u64)
    requires
        carved_starts(s).count(v) > 0,
    ensures
        exists|k: int| 0 <= k < s.len() && #[trigger] s[k].offset_start == v,
    decreases s.len(),
{
    if s.last().offset_start != v {
        lemma_carved_starts_index(s.drop_last(), v);
        let k = choose|k: int| 0 <= k < s.drop_last().len() && #[trigger] s.drop_last()[k].offset_start == v;
        assert(s[k] == s.drop_last()[k]);
    } else {
        assert(s[s.len() - 1].offset_start == v);
    }
}

proof fn lemma_pending_starts_index(s: Seq<PendingFile>, v: u64)
    requires
        pending_starts(s).count(v) > 0,
    ensures
        exists|k: int| 0 <= k < s.len() && #[trigger] s[k].start_abs == v,
    decreases s.len(),
{
    if s.last().start_abs != v {
        lemma_pending_starts_index(s.drop_last(), v);
        let k = choose|k: int| 0 <= k < s.drop_last().len() && #[trigger] s.drop_last()[k].start_abs == v;
        assert(s[k] == s.drop_last()[k]);
    } else {
        assert(s[s.len() - 1].start_abs == v);
    }
}

/// The (kind, start) pairs of the files in `s`, each counted as often as it
/// occurs.
pub open spec fn carved_tags(s: Seq<CarvedFile>) -> Multiset<(FileKind, u64)>
    decreases s.len(),
{
    if s.len() == 0 {
        Multiset::empty()
    } else {
        carved_tags(s.drop_last()).insert((s.last().kind, s.last().offset_start))
    }
}

/// The (kind, start) pairs of the files still open in `s`.
pub open spec fn pending_tags(s: Seq<PendingFile>) -> Multiset<(FileKind, u64)>
    decreases s.len(),
{
    if s.len() == 0 {
        Multiset::empty()
    } else {
        pending_tags(s.drop_last()).insert((s.last().kind, s.last().start_abs))
    }
}

/// The offsets `hs` paired with `kind`.
pub open spec fn tag_list(kind: FileKind, hs: Seq<u64>) -> Multiset<(FileKind, u64)>
    decreases hs.len(),
{
    if hs.len() == 0 {
        Multiset::empty()
    } else {
        tag_list(kind, hs.drop_last()).insert((kind, hs.last()))
    }
}

/// The headers registered in window `w` by each signature, paired with its kind.
pub open spec fn tagged_headers(sigs: Seq<SignatureModel>, w: Seq<u8>, base: int, known: Set<u64>) -> Multiset<
    (FileKind, u64),
>
    decreases sigs.len(),
{
    if sigs.len() == 0 {
        Multiset::empty()
    } else {
        tagged_headers(sigs.drop_last(), w, base, known).add(
            tag_list(sigs.last().kind, search_signature_model(sigs.last(), w, base, known).headers),
        )
    }
}

/// No two registered signatures of the same kind can find a header at the
/// same place: no non-empty header is the beginning of another header of
/// its kind.
pub open spec fn kinds_exclusive(sigs: Seq<SignatureModel>) -> bool {
    forall|i: int, j: int|
        0 <= i < sigs.len() && 0 <= j < sigs.len() && i != j && sigs[i].kind == sigs[j].kind
            && sigs[i].header.len() > 0 && sigs[j].header.len() > 0 ==> !is_prefix(
            #[trigger] sigs[i].header,
            #[trigger] sigs[j].header,
        )
}

/// No (kind, start) pair is carved or open twice, and every start among
/// them is a registered header.
pub open spec fn tags_unique(st: ScanModel) -> bool {
    forall|t: (FileKind, u64)|
        {
            let n = #[trigger] carved_tags(st.carved).add(pending_tags(st.pending)).count(t);
            n <= 1 && (n > 0 ==> st.known.contains(t.1))
        }
}

proof fn lemma_carved_tags_concat(a: Seq<CarvedFile>, b: Seq<CarvedFile>)
    ensures
        carved_tags(a + b) =~= carved_tags(a).add(carved_tags(b)),
    decreases b.len(),
{
    if b.len() > 0 {
        lemma_carved_tags_concat(a, b.drop_last());
        assert((a + b).drop_last() =~= a + b.drop_last());
    } else {
        assert(a + b =~= a);
    }
}

proof fn lemma_pending_tags_concat(a: Seq<PendingFile>, b: Seq<PendingFile>)
    ensures
        pending_tags(a + b) =~= pending_tags(a).add(pending_tags(b)),
    decreases b.len(),
{
    if b.len() > 0 {
        lemma_pending_tags_concat(a, b.drop_last());
        assert((a + b).drop_last() =~= a + b.drop_last());
    } else {
        assert(a + b =~= a);
    }
}

proof fn lemma_tag_list_count(kind: FileKind, hs: Seq<u64>, t: (FileKind, u64))
    ensures
        tag_list(kind, hs).count(t) == if t.0 == kind { offsets(hs).count(t.1) } else { 0 },
    decreases hs.len(),
{
    if hs.len() > 0 {
        lemma_tag_list_count(kind, hs.drop_last(), t);
    }
}

proof fn lemma_close_fold_tags(sigs: Seq<SignatureModel>, w: Seq<u8>, base: int, pending: Seq<PendingFile>)
    ensures
        pending_tags(close_fold(sigs, w, base, pending).open).add(
            carved_tags(close_fold(sigs, w, base, pending).closed),
        ) =~= pending_tags(pending),
    decreases pending.len(),
{
    if pending.len() > 0 {
        let init = pending.drop_last();
        let p = pending.last();
        lemma_close_fold_tags(sigs, w, base, init);
        let acc = close_fold(sigs, w, base, init);
        let footer = footer_for(sigs, p.kind);
        match first_match(w, footer, close_from(acc.cursors.at(p.kind), p, base)) {
            Some(f) => {
                let c = CarvedFile { kind: p.kind, offset_start: p.start_abs, offset_end: (base + f + footer.len()) as u64 };
                assert(acc.closed.push(c).drop_last() =~= acc.closed);
            },
            None => {
                assert(acc.open.push(p).drop_last() =~= acc.open);
            },
        }
    }
}

proof fn lemma_search_fold_tags(sig: SignatureModel, w: Seq<u8>, base: int, known: Set<u64>, hs: Seq<int>)
    ensures
        carved_tags(search_fold(sig, w, base, known, hs).found).add(
            pending_tags(search_fold(sig, w, base, known, hs).pending),
        ) =~= tag_list(sig.kind, search_fold(sig, w, base, known, hs).headers),
    decreases hs.len(),
{
    if hs.len() > 0 {
        let init = hs.drop_last();
        let h = hs.last();
        lemma_search_fold_tags(sig, w, base, known, init);
        let acc = search_fold(sig, w, base, known, init);
        let abs = (base + h) as u64;
        if !known.contains(abs) {
            assert(acc.headers.push(abs).drop_last() =~= acc.headers);
            match first_match(w, sig.footer, h + sig.header.len()) {
                Some(f) => {
                    let c = CarvedFile { kind: sig.kind, offset_start: abs, offset_end: (base + f + sig.footer.len()) as u64 };
                    assert(acc.found.push(c).drop_last() =~= acc.found);
                },
                None => {
                    let q = PendingFile { kind: sig.kind, start_abs: abs, body_abs: (base + h + sig.header.len()) as u64 };
                    assert(acc.pending.push(q).drop_last() =~= acc.pending);
                },
            }
        }
    }
}

/// The files a header search carves or leaves open are tagged exactly as its
/// registered headers.
proof fn lemma_headers_fold_tags(sigs: Seq<SignatureModel>, n: int, w: Seq<u8>, base: int, known: Set<u64>)
    requires
        0 <= n <= sigs.len(),
    ensures
        carved_tags(headers_fold(sigs.take(n), w, base, known).found).add(
            pending_tags(headers_fold(sigs.take(n), w, base, known).pending),
        ) =~= tagged_headers(sigs.take(n), w, base, known),
    decreases n,
{
    if n > 0 {
        lemma_headers_fold_tags(sigs, n - 1, w, base, known);
        assert(sigs.take(n).drop_last() =~= sigs.take(n - 1));
        assert(sigs.take(n).last() == sigs[n - 1]);
        let sig = sigs[n - 1];
        let a = headers_fold(sigs.take(n - 1), w, base, known);
        let b = search_signature_model(sig, w, base, known);
        if sig.header.len() > 0 {
            lemma_search_fold_tags(sig, w, base, known, all_matches(w, sig.header));
        } else {
            assert(carved_tags(b.found) =~= Multiset::<(FileKind, u64)>::empty());
            assert(pending_tags(b.pending) =~= Multiset::<(FileKind, u64)>::empty());
            assert(tag_list(sig.kind, b.headers) =~= Multiset::<(FileKind, u64)>::empty());
        }
        lemma_carved_tags_concat(a.found, b.found);
        lemma_pending_tags_concat(a.pending, b.pending);
    } else {
        assert(carved_tags(headers_fold(sigs.take(n), w, base, known).found) =~= Multiset::<(FileKind, u64)>::empty());
        assert(pending_tags(headers_fold(sigs.take(n), w, base, known).pending) =~= Multiset::<(FileKind, u64)>::empty());
    }
}

/// In one window, no (kind, offset) pair is registered twice, and every
/// offset registered is new and found by a signature of that kind.
proof fn lemma_tagged_headers(sigs: Seq<SignatureModel>, n: int, w: Seq<u8>, base: int, known: Set<u64>)
    requires
        0 <= base,
        base + w.len() <= u64::MAX,
        0 <= n <= sigs.len(),
        kinds_exclusive(sigs),
    ensures
        forall|t: (FileKind, u64)|
            {
                let c = #[trigger] tagged_headers(sigs.take(n), w, base, known).count(t);
                &&& c <= 1
                &&& c > 0 ==> !known.contains(t.1)
                &&& c > 0 ==> exists|i: int|
                    0 <= i < n && sigs[i].kind == t.0 && sigs[i].header.len() > 0 && matches_at(
                        w,
                        #[trigger] sigs[i].header,
                        t.1 - base,
                    )
            },
    decreases n,
{
    if n > 0 {
        lemma_tagged_headers(sigs, n - 1, w, base, known);
        assert(sigs.take(n).drop_last() =~= sigs.take(n - 1));
        assert(sigs.take(n).last() == sigs[n - 1]);
        let sig = sigs[n - 1];
        let b = search_signature_model(sig, w, base, known);
        let all = tagged_headers(sigs.take(n), w, base, known);
        let prev = tagged_headers(sigs.take(n - 1), w, base, known);
        assert(all == prev.add(tag_list(sig.kind, b.headers)));
        // what the last signature registers
        assert((forall|k: int| 0 <= k < b.headers.len() ==> !known.contains(#[trigger] b.headers[k]))
            && (forall|k: int| 0 <= k < b.headers.len() ==> sig.header.len() > 0 && matches_at(
                w,
                sig.header,
                #[trigger] b.headers[k] - base,
            )) && (forall|k: int, l: int| 0 <= k < l < b.headers.len() ==> b.headers[k] != b.headers[l])) by {
            if sig.header.len() > 0 {
                let hs = all_matches(w, sig.header);
                lemma_matches_from(w, sig.header, 0);
                lemma_search_fold_unique(sig, w, base, known, hs);
                assert forall|k: int| 0 <= k < b.headers.len() implies matches_at(
                    w,
                    sig.header,
                    #[trigger] b.headers[k] - base,
                ) by {
                    let t = choose|t: int| 0 <= t < hs.len() && b.headers[k] as int == base + hs[t];
                }
            }
        }
        assert forall|t: (FileKind, u64)|
            {
                let c = #[trigger] tagged_headers(sigs.take(n), w, base, known).count(t);
                &&& c <= 1
                &&& c > 0 ==> !known.contains(t.1)
                &&& c > 0 ==> exists|i: int|
                    0 <= i < n && sigs[i].kind == t.0 && sigs[i].header.len() > 0 && matches_at(
                        w,
                        #[trigger] sigs[i].header,
                        t.1 - base,
                    )
            } by {
            lemma_tag_list_count(sig.kind, b.headers, t);
            lemma_offsets_count(b.headers, t.1);
            let cb = tag_list(sig.kind, b.headers).count(t);
            let ca = prev.count(t);
            assert(all.count(t) == ca + cb);
            if cb > 0 {
                let k = choose|k: int| 0 <= k < b.headers.len() && b.headers[k] == t.1;
                assert(matches_at(w, sigs[n - 1].header, b.headers[k] - base));
                assert(!known.contains(b.headers[k]));
                if ca > 0 {
                    let i = choose|i: int|
                        0 <= i < n - 1 && sigs[i].kind == t.0 && sigs[i].header.len() > 0 && matches_at(
                            w,
                            #[trigger] sigs[i].header,
                            t.1 - base,
                        );
                    let p = t.1 - base;
                    if sigs[i].header.len() <= sig.header.len() {
                        lemma_same_place_prefix(w, sigs[i].header, sig.header, p);
                        assert(!is_prefix(sigs[i].header, sigs[n - 1].header));
                    } else {
                        lemma_same_place_prefix(w, sig.header, sigs[i].header, p);
                        assert(!is_prefix(sigs[n - 1].header, sigs[i].header));
                    }
                }
            }
        }
    } else {
        assert forall|t: (FileKind, u64)| #[trigger] tagged_headers(sigs.take(n), w, base, known).count(t) == 0 by {
        }
    }
}

proof fn lemma_window_step_tags(sigs: Seq<SignatureModel>, st: ScanModel, w: Seq<u8>, base: int)
    requires
        0 <= base,
        base + w.len() <= u64::MAX,
        kinds_exclusive(sigs),
        tags_unique(st),
    ensures
        tags_unique(window_step(sigs, st, w, base)),
{
    let c = close_fold(sigs, w, base, st.pending);
    let h = headers_fold(sigs, w, base, st.known);
    lemma_close_fold_tags(sigs, w, base, st.pending);
    assert(sigs.take(sigs.len() as int) =~= sigs);
    lemma_headers_fold_tags(sigs, sigs.len() as int, w, base, st.known);
    lemma_tagged_headers(sigs, sigs.len() as int, w, base, st.known);
    let next = window_step(sigs, st, w, base);
    lemma_carved_tags_concat(st.carved, c.closed);
    lemma_carved_tags_concat(st.carved + c.closed, h.found);
    lemma_pending_tags_concat(c.open, h.pending);
    let tagged = tagged_headers(sigs, w, base, st.known);
    let before = carved_tags(st.carved).add(pending_tags(st.pending));
    let after = carved_tags(next.carved).add(pending_tags(next.pending));
    assert(after =~= before.add(tagged));
    assert forall|t: (FileKind, u64)| {
        let n = #[trigger] carved_tags(next.carved).add(pending_tags(next.pending)).count(t);
        n <= 1 && (n > 0 ==> next.known.contains(t.1))
    } by {
        assert(before.count(t) <= 1);
        assert(tagged_headers(sigs.take(sigs.len() as int), w, base, st.known).count(t) == tagged.count(t));
        if tagged.count(t) > 0 {
            let i = choose|i: int|
                0 <= i < sigs.len() && sigs[i].kind == t.0 && sigs[i].header.len() > 0 && matches_at(
                    w,
                    #[trigger] sigs[i].header,
                    t.1 - base,
                );
            lemma_headers_fold_registers(sigs, sigs.len() as int, w, base, st.known, i, t.1 - base);
            assert((base + (t.1 - base)) as u64 == t.1);
            assert(h.headers.to_set().contains(t.1));
        }
    }
}

proof fn lemma_scan_run_tags(
    sigs: Seq<SignatureModel>,
    chunk: int,
    o: int,
    data: Seq<u8>,
    pos: int,
    overlap: Seq<u8>,
    st: ScanModel,
)
    requires
        data.len() <= u64::MAX,
        0 <= o,
        overlap.len() <= pos <= data.len(),
        overlap == data.subrange(pos - overlap.len(), pos),
        kinds_exclusive(sigs),
        tags_unique(st),
    ensures
        tags_unique(scan_run(sigs, chunk, o, data, pos, overlap, st)),
    decreases data.len() - pos,
{
    if !(chunk <= 0 || pos >= data.len()) {
        let new_bytes = read_range(data, pos, chunk);
        lemma_read_range_len(data, pos, chunk);
        let w = overlap + new_bytes;
        let base = saturating_diff(pos, overlap.len() as int);
        let next_pos = if pos + chunk <= data.len() { pos + chunk } else { data.len() as int };
        lemma_window_step_tags(sigs, st, w, base);
        let tail = tail_of(new_bytes, o);
        assert(tail =~= data.subrange(next_pos - tail.len(), next_pos));
        lemma_scan_run_tags(sigs, chunk, o, data, next_pos, tail, window_step(sigs, st, w, base));
    }
}

proof fn lemma_insert_by_start_tags(t: Seq<CarvedFile>, x: CarvedFile)
    ensures
        carved_tags(insert_by_start(t, x)) =~= carved_tags(t).insert((x.kind, x.offset_start)),
    decreases t.len(),
{
    if t.len() == 0 {
        assert(seq![x] =~= t.push(x));
        assert(t.push(x).drop_last() =~= t);
    } else if t.last().offset_start <= x.offset_start {
        assert(t.push(x).drop_last() =~= t);
    } else {
        let init = t.drop_last();
        lemma_insert_by_start_tags(init, x);
        let r = insert_by_start(init, x);
        assert(r.push(t.last()).drop_last() =~= r);
        assert(carved_tags(t) == carved_tags(init).insert((t.last().kind, t.last().offset_start)));
    }
}

proof fn lemma_sort_by_start_tags(s: Seq<CarvedFile>)
    ensures
        carved_tags(sort_by_start(s)) =~= carved_tags(s),
    decreases s.len(),
{
    if s.len() > 0 {
        lemma_sort_by_start_tags(s.drop_last());
        lemma_insert_by_start_tags(sort_by_start(s.drop_last()), s.last());
    }
}

proof fn lemma_carved_tags_repeat(s: Seq<CarvedFile>, i: int, j: int)
    requires
        0 <= i < j < s.len(),
        s[i].offset_start == s[j].offset_start,
        s[i].kind == s[j].kind,
    ensures
        carved_tags(s).count((s[i].kind, s[i].offset_start)) >= 2,
    decreases s.len(),
{
    let init = s.drop_last();
    if j < s.len() - 1 {
        lemma_carved_tags_repeat(init, i, j);
        assert(init[i] == s[i]);
    } else {
        lemma_carved_tags_has(init, i);
        assert(init[i] == s[i]);
    }
}

proof fn lemma_carved_tags_has(s: Seq<CarvedFile>, i: int)
    requires
        0 <= i < s.len(),
    ensures
        carved_tags(s).count((s[i].kind, s[i].offset_start)) >= 1,
    decreases s.len(),
{
    if i < s.len() - 1 {
        lemma_carved_tags_has(s.drop_last(), i);
        assert(s.drop_last()[i] == s[i]);
    }
}

/// No two files that a scan reports have both the same kind and the same
/// start, although the windows overlap and a header near a chunk boundary is
/// seen twice. This holds whenever no registered header is the beginning of
/// another header of its kind; signatures of different kinds may nest.
pub proof fn lemma_scan_unique_kind_starts(sigs: Seq<SignatureModel>, chunk: int, data: Seq<u8>)
    requires
        data.len() <= u64::MAX,
        kinds_exclusive(sigs),
    ensures
        forall|i: int, j: int|
            0 <= i < j < scan_model(sigs, chunk, data).len() ==> !(scan_model(sigs, chunk, data)[i].kind
                == scan_model(sigs, chunk, data)[j].kind && scan_model(sigs, chunk, data)[i].offset_start
                == scan_model(sigs, chunk, data)[j].offset_start),
{
    if !(sigs.len() == 0 || chunk <= 0) {
        let run = scan_run(sigs, chunk, overlap_for(sigs), data, 0, Seq::empty(), initial_scan());
        assert(Seq::<u8>::empty() =~= data.subrange(0, 0));
        assert(tags_unique(initial_scan())) by {
            assert(carved_tags(Seq::<CarvedFile>::empty()).add(pending_tags(Seq::<PendingFile>::empty()))
                =~= Multiset::<(FileKind, u64)>::empty());
        }
        lemma_scan_run_tags(sigs, chunk, overlap_for(sigs), data, 0, Seq::empty(), initial_scan());
        let carved = run.carved;
        let sorted = scan_model(sigs, chunk, data);
        lemma_sort_by_start_tags(carved);
        assert forall|i: int, j: int| 0 <= i < j < sorted.len() implies !(sorted[i].kind == sorted[j].kind
            && sorted[i].offset_start == sorted[j].offset_start) by {
            if sorted[i].kind == sorted[j].kind && sorted[i].offset_start == sorted[j].offset_start {
                lemma_carved_tags_repeat(sorted, i, j);
                let t = (sorted[i].kind, sorted[i].offset_start);
                assert(carved_tags(carved).add(pending_tags(run.pending)).count(t) <= 1);
            }
        }
    }
}

/// Some registered signature has its non-empty header at `v` in `data`.
pub open spec fn header_occurs(sigs: Seq<SignatureModel>, data: Seq<u8>, v: int) -> bool {
    exists|i: int| 0 <= i < sigs.len() && sigs[i].header.len() > 0 && matches_at(data, #[trigger] sigs[i].header, v)
}

/// The starts of the files that a scan of `data` in chunks of `chunk` bytes
/// carves or leaves open at the end, each counted as often as it occurs.
pub open spec fn scan_starts(sigs: Seq<SignatureModel>, chunk: int, data: Seq<u8>) -> Multiset<u64> {
    let run = scan_run(sigs, chunk, overlap_for(sigs), data, 0, Seq::empty(), initial_scan());
    carved_starts(run.carved).add(pending_starts(run.pending))
}

/// The files a scan carves or leaves open start exactly at the header
/// occurrences of the source, one file at each: where the files begin does
/// not depend on how the source is cut into chunks (of at least the overlap).
pub proof fn lemma_scan_starts_are_headers(sigs: Seq<SignatureModel>, chunk: int, data: Seq<u8>)
    requires
        data.len() <= u64::MAX,
        headers_exclusive(sigs),
        chunk > 0,
        chunk >= overlap_for(sigs),
    ensures
        forall|v: u64| #[trigger] scan_starts(sigs, chunk, data).count(v) == if header_occurs(sigs, data, v as int) {
            1int
        } else {
            0int
        },
{
    let o = overlap_for(sigs);
    let run = scan_run(sigs, chunk, o, data, 0, Seq::empty(), initial_scan());
    assert(Seq::<u8>::empty() =~= data.subrange(0, 0));
    assert(starts_unique(initial_scan())) by {
        assert(carved_starts(Seq::<CarvedFile>::empty()).add(pending_starts(Seq::<PendingFile>::empty()))
            =~= Multiset::<u64>::empty());
    }
    lemma_scan_run_unique(sigs, chunk, o, data, 0, Seq::empty(), initial_scan());
    lemma_scan_run_sound(sigs, chunk, o, data, 0, Seq::empty(), initial_scan());
    let total = scan_starts(sigs, chunk, data);
    assert forall|v: u64| #[trigger] scan_starts(sigs, chunk, data).count(v) == if header_occurs(
        sigs,
        data,
        v as int,
    ) {
        1int
    } else {
        0int
    } by {
        assert(total.count(v) <= 1);
        if header_occurs(sigs, data, v as int) {
            let i = choose|i: int|
                0 <= i < sigs.len() && sigs[i].header.len() > 0 && matches_at(data, #[trigger] sigs[i].header, v as int);
            lemma_header_within_max(sigs, i);
            lemma_scan_run_sees(sigs, chunk, o, data, 0, Seq::empty(), initial_scan(), i, v as int);
            assert((v as int) as u64 == v);
        }
        if total.count(v) > 0 {
            if carved_starts(run.carved).count(v) > 0 {
                lemma_carved_starts_index(run.carved, v);
                let k = choose|k: int| 0 <= k < run.carved.len() && #[trigger] run.carved[k].offset_start == v;
                assert(carved_sound(sigs, data, run.carved[k]));
                let c = run.carved[k];
                let (i, j) = choose|i: int, j: int|
                    #[trigger] framed_by(sigs, data, c.kind, c.offset_start as int, c.offset_end as int, i, j);
                assert(header_occurs(sigs, data, v as int));
            } else {
                lemma_pending_starts_index(run.pending, v);
                let k = choose|k: int| 0 <= k < run.pending.len() && #[trigger] run.pending[k].start_abs == v;
                assert(pending_sound(sigs, data, run.pending[k]));
                assert(header_occurs(sigs, data, v as int));
            }
        }
    }
}

/// Two scans of one source with chunks of at least the overlap open files at
/// the same starts.
pub proof fn lemma_scan_starts_independent_of_chunk(sigs: Seq<SignatureModel>, c1: int, c2: int, data: Seq<u8>)
    requires
        data.len() <= u64::MAX,
        headers_exclusive(sigs),
        c1 > 0,
        c2 > 0,
        c1 >= overlap_for(sigs),
        c2 >= overlap_for(sigs),
    ensures
        scan_starts(sigs, c1, data) == scan_starts(sigs, c2, data),
{
    lemma_scan_starts_are_headers(sigs, c1, data);
    lemma_scan_starts_are_headers(sigs, c2, data);
    assert(scan_starts(sigs, c1, data) =~= scan_starts(sigs, c2, data));
}

} // verus!
