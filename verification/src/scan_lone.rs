//! Scans with a single signature whose header occurs at most once in the
//! source: the result is the file from that header to the first footer after
//! it, whatever the chunk size, as long as chunks cover the overlap.
use vstd::prelude::*;

use crate::carved_file::CarvedFile;
use crate::scan_chunks::{lemma_search_none_new, lemma_search_one_new};
use crate::matcher::{all_matches, first_match, lemma_first_match, lemma_matches_from, matches_at};
use crate::scan_model::{
    close_fold, empty_search, footer_for, headers_fold, initial_scan, overlap_for, scan_model, scan_run,
    search_signature_model, sort_by_start, window_step, FooterCursors, PendingFile, ScanModel,
};
use crate::signature::SignatureModel;
use crate::source::{lemma_read_range_len, read_range};
use crate::window::{saturating_diff, tail_of};

verus! {

/// The header of `sig` occurs at most once in `data`.
pub open spec fn header_at_most_once(sig: SignatureModel, data: Seq<u8>) -> bool {
    forall|a: int, b: int|
        #![trigger matches_at(data, sig.header, a), matches_at(data, sig.header, b)]
        matches_at(data, sig.header, a) && matches_at(data, sig.header, b) ==> a == b
}

/// What a scan with `sig` alone reports when its header occurs at most once:
/// the file from that header to the end of the first footer that begins
/// after the header, or nothing when there is no header or no such footer.
pub open spec fn lone_result(sig: SignatureModel, data: Seq<u8>) -> Seq<CarvedFile> {
    if exists|p: int| matches_at(data, sig.header, p) {
        let p = choose|p: int| matches_at(data, sig.header, p);
        match first_match(data, sig.footer, p + sig.header.len()) {
            Some(q) => seq![
                CarvedFile {
                    kind: sig.kind,
                    offset_start: p as u64,
                    offset_end: (q + sig.footer.len()) as u64,
                },
            ],
            None => Seq::empty(),
        }
    } else {
        Seq::empty()
    }
}

/// The first `len` bytes of `data` hold the whole header.
spec fn header_within(sig: SignatureModel, data: Seq<u8>, len: int) -> bool {
    exists|p: int| matches_at(data, sig.header, p) && p + sig.header.len() <= len
}

/// The scan state after the first `e` bytes of `data` have been read.
spec fn lone_state(sig: SignatureModel, data: Seq<u8>, e: int, st: ScanModel) -> bool {
    if header_within(sig, data, e) {
        let p = choose|p: int| matches_at(data, sig.header, p) && p + sig.header.len() <= e;
        let body = p + sig.header.len();
        let closes = match first_match(data, sig.footer, body) {
            Some(q) => q + sig.footer.len() <= e,
            None => false,
        };
        let end = match first_match(data, sig.footer, body) {
            Some(q) => q + sig.footer.len(),
            None => 0,
        };
        &&& st.known == set![p as u64]
        &&& if closes {
            &&& st.pending == Seq::<PendingFile>::empty()
            &&& st.carved == seq![CarvedFile { kind: sig.kind, offset_start: p as u64, offset_end: end as u64 }]
        } else {
            &&& st.pending == seq![PendingFile { kind: sig.kind, start_abs: p as u64, body_abs: body as u64 }]
            &&& st.carved == Seq::<CarvedFile>::empty()
        }
    } else {
        &&& st.pending == Seq::<PendingFile>::empty()
        &&& st.carved == Seq::<CarvedFile>::empty()
        &&& st.known == Set::<u64>::empty()
    }
}

/// Searching a slice of `data` is searching `data` and keeping what lies
/// within the slice.
pub(crate) proof fn lemma_first_match_window(data: Seq<u8>, pat: Seq<u8>, base: int, end: int, from: int)
    requires
        0 <= base <= end <= data.len(),
        0 <= from,
    ensures
        first_match(data.subrange(base, end), pat, from) == (match first_match(data, pat, base + from) {
            Some(q) => if q + pat.len() <= end {
                Some(q - base)
            } else {
                None
            },
            None => None,
        }),
    decreases end - base - from,
{
    let w = data.subrange(base, end);
    lemma_first_match(data, pat, base + from);
    if pat.len() == 0 || from + pat.len() > w.len() {
    } else {
        assert(w.subrange(from, from + pat.len()) =~= data.subrange(base + from, base + from + pat.len()));
        if !matches_at(w, pat, from) {
            lemma_first_match_window(data, pat, base, end, from + 1);
        }
    }
}

/// Where nothing matches between `a` and `b`, searching from `a` is
/// searching from `b`.
pub(crate) proof fn lemma_first_match_skip(buf: Seq<u8>, pat: Seq<u8>, a: int, b: int)
    requires
        0 <= a <= b,
        forall|j: int| a <= j < b ==> !matches_at(buf, pat, j),
    ensures
        first_match(buf, pat, a) == first_match(buf, pat, b),
    decreases b - a,
{
    if a < b {
        if pat.len() == 0 || a + pat.len() > buf.len() {
        } else {
            assert(!matches_at(buf, pat, a));
            lemma_first_match_skip(buf, pat, a + 1, b);
        }
    }
}

/// In a slice of `data`, the header matches at most once, and where it
/// matches is where it matches in `data`.
pub(crate) proof fn lemma_slice_headers(sig: SignatureModel, data: Seq<u8>, base: int, end: int)
    requires
        sig.header.len() > 0,
        header_at_most_once(sig, data),
        0 <= base <= end <= data.len(),
    ensures
        all_matches(data.subrange(base, end), sig.header).len() <= 1,
        forall|m: int|
            #![trigger matches_at(data.subrange(base, end), sig.header, m)]
            matches_at(data.subrange(base, end), sig.header, m) <==> (0 <= m && m + sig.header.len() <= end - base
                && matches_at(data, sig.header, base + m)),
        forall|k: int|
            0 <= k < all_matches(data.subrange(base, end), sig.header).len() ==> matches_at(
                data.subrange(base, end),
                sig.header,
                #[trigger] all_matches(data.subrange(base, end), sig.header)[k],
            ),
        forall|m: int|
            matches_at(data.subrange(base, end), sig.header, m) ==> #[trigger] all_matches(
                data.subrange(base, end),
                sig.header,
            ).contains(m),
{
    let w = data.subrange(base, end);
    let h = sig.header;
    assert forall|m: int| #![trigger matches_at(w, h, m)]
        matches_at(w, h, m) <==> (0 <= m && m + h.len() <= end - base && matches_at(data, h, base + m)) by {
        if 0 <= m && m + h.len() <= end - base {
            assert(w.subrange(m, m + h.len()) =~= data.subrange(base + m, base + m + h.len()));
        }
    }
    lemma_matches_from(w, h, 0);
    let all = all_matches(w, h);
    if all.len() > 1 {
        assert(matches_at(w, h, all[0]));
        assert(matches_at(w, h, all[1]));
        assert(matches_at(data, h, base + all[0]));
        assert(matches_at(data, h, base + all[1]));
        assert(all[0] < all[1]);
    }
}

/// The header search of one window with `sig` alone, when the window holds
/// no header that is not known yet: nothing.
proof fn lemma_headers_none_new(sig: SignatureModel, data: Seq<u8>, base: int, end: int, known: Set<u64>)
    requires
        sig.header.len() > 0,
        header_at_most_once(sig, data),
        0 <= base <= end <= data.len(),
        forall|m: int|
            matches_at(data.subrange(base, end), sig.header, m) ==> known.contains(#[trigger] ((base + m) as u64)),
    ensures
        headers_fold(seq![sig], data.subrange(base, end), base, known) == empty_search(),
{
    let w = data.subrange(base, end);
    lemma_search_none_new(sig, data, base, end, known);
    assert(seq![sig].drop_last() =~= Seq::<SignatureModel>::empty());
    assert(headers_fold(seq![sig].drop_last(), w, base, known) == empty_search());
    assert(seq![sig].last() == sig);
    let b = search_signature_model(sig, w, base, known);
    let e = empty_search();
    assert(e.pending + b.pending =~= e.pending);
    assert(e.found + b.found =~= e.found);
    assert(e.headers + b.headers =~= e.headers);
}

/// The header search of one window with `sig` alone, when the window holds
/// the header at `p` and it is not known yet: it is registered, and carved
/// when its footer follows in the window, else left pending.
proof fn lemma_headers_one_new(sig: SignatureModel, data: Seq<u8>, base: int, end: int, known: Set<u64>, p: int)
    requires
        sig.header.len() > 0,
        header_at_most_once(sig, data),
        0 <= base <= p,
        p + sig.header.len() <= end <= data.len() <= u64::MAX,
        matches_at(data, sig.header, p),
        !known.contains(p as u64),
    ensures
        ({
            let h = headers_fold(seq![sig], data.subrange(base, end), base, known);
            &&& h.headers == seq![p as u64]
            &&& match first_match(data.subrange(base, end), sig.footer, p - base + sig.header.len()) {
                Some(f) => {
                    &&& h.pending == Seq::<PendingFile>::empty()
                    &&& h.found == seq![
                        CarvedFile {
                            kind: sig.kind,
                            offset_start: p as u64,
                            offset_end: (base + f + sig.footer.len()) as u64,
                        },
                    ]
                },
                None => {
                    &&& h.found == Seq::<CarvedFile>::empty()
                    &&& h.pending == seq![
                        PendingFile {
                            kind: sig.kind,
                            start_abs: p as u64,
                            body_abs: (p + sig.header.len()) as u64,
                        },
                    ]
                },
            }
        }),
{
    let w = data.subrange(base, end);
    lemma_search_one_new(sig, data, base, end, known, p);
    assert(seq![sig].drop_last() =~= Seq::<SignatureModel>::empty());
    assert(headers_fold(seq![sig].drop_last(), w, base, known) == empty_search());
    assert(seq![sig].last() == sig);
    let b = search_signature_model(sig, w, base, known);
    let e = empty_search();
    assert(e.pending + b.pending =~= b.pending);
    assert(e.found + b.found =~= b.found);
    assert(e.headers + b.headers =~= b.headers);
}

/// Closing the one pending file `pf` of `sig` in window `w`: its footer is
/// looked for from the end of its header (or the window's start).
proof fn lemma_close_one(sig: SignatureModel, w: Seq<u8>, base: int, pf: PendingFile)
    requires
        pf.kind == sig.kind,
    ensures
        ({
            let c = close_fold(seq![sig], w, base, seq![pf]);
            match first_match(w, sig.footer, saturating_diff(pf.body_abs as int, base)) {
                Some(f) => {
                    &&& c.open == Seq::<PendingFile>::empty()
                    &&& c.closed == seq![
                        CarvedFile {
                            kind: pf.kind,
                            offset_start: pf.start_abs,
                            offset_end: (base + f + sig.footer.len()) as u64,
                        },
                    ]
                },
                None => {
                    &&& c.open == seq![pf]
                    &&& c.closed == Seq::<CarvedFile>::empty()
                },
            }
        }),
{
    let sigs = seq![sig];
    assert(seq![pf].drop_last() =~= Seq::<PendingFile>::empty());
    assert(seq![pf].last() == pf);
    assert(close_fold(sigs, w, base, seq![pf].drop_last()).cursors == FooterCursors::zero());
    assert(footer_for(sigs, pf.kind) == sig.footer);
    assert(FooterCursors::zero().at(pf.kind) == 0);
    let c = close_fold(sigs, w, base, seq![pf]);
    match first_match(w, sig.footer, saturating_diff(pf.body_abs as int, base)) {
        Some(f) => {
            assert(c.closed =~= seq![
                CarvedFile {
                    kind: pf.kind,
                    offset_start: pf.start_abs,
                    offset_end: (base + f + sig.footer.len()) as u64,
                },
            ]);
        },
        None => {
            assert(c.open =~= seq![pf]);
        },
    }
}

/// One window keeps the scan in the state that the bytes read so far
/// determine.
proof fn lemma_lone_step(sig: SignatureModel, data: Seq<u8>, o: int, pos: int, next_pos: int, base: int, st: ScanModel)
    requires
        sig.header.len() > 0,
        sig.footer.len() > 0,
        sig.header.len() <= o + 1,
        sig.footer.len() <= o + 1,
        header_at_most_once(sig, data),
        data.len() <= u64::MAX,
        0 <= base <= pos < next_pos <= data.len(),
        pos == 0 ==> base == 0,
        pos == 0 || base == pos - o,
        lone_state(sig, data, pos, st),
    ensures
        lone_state(sig, data, next_pos, window_step(seq![sig], st, data.subrange(base, next_pos), base)),
{
    let w = data.subrange(base, next_pos);
    let h = sig.header;
    let f = sig.footer;
    let sigs = seq![sig];
    lemma_slice_headers(sig, data, base, next_pos);
    let next = window_step(sigs, st, w, base);
    if header_within(sig, data, pos) {
        let p = choose|p: int| matches_at(data, h, p) && p + h.len() <= pos;
        assert(matches_at(data, h, p) && p + h.len() <= next_pos);
        assert(header_within(sig, data, next_pos));
        let p2 = choose|p: int| matches_at(data, h, p) && p + h.len() <= next_pos;
        assert(p2 == p);
        let body = p + h.len();
        assert forall|m: int| matches_at(w, h, m) implies #[trigger] st.known.contains((base + m) as u64) by {
            assert(matches_at(data, h, base + m));
            assert(base + m == p);
        }
        lemma_headers_none_new(sig, data, base, next_pos, st.known);
        let hf = headers_fold(sigs, w, base, st.known);
        assert(hf.headers.to_set() =~= Set::<u64>::empty());
        assert(next.known =~= st.known);
        lemma_first_match(data, f, body);
        let closes_before = match first_match(data, f, body) {
            Some(q) => q + f.len() <= pos,
            None => false,
        };
        if closes_before {
            assert(close_fold(sigs, w, base, st.pending) == close_fold(sigs, w, base, Seq::<PendingFile>::empty()));
            assert(next.pending =~= Seq::<PendingFile>::empty());
            assert(next.carved =~= st.carved);
        } else {
            let pf = PendingFile { kind: sig.kind, start_abs: p as u64, body_abs: body as u64 };
            assert(st.pending == seq![pf]);
            lemma_close_one(sig, w, base, pf);
            let from = saturating_diff(body, base);
            assert(from == saturating_diff(pf.body_abs as int, base));
            lemma_first_match_window(data, f, base, next_pos, from);
            if body < base {
                assert forall|j: int| body <= j < base implies !matches_at(data, f, j) by {
                    if matches_at(data, f, j) {
                        match first_match(data, f, body) {
                            Some(q) => {
                                assert(q <= j);
                            },
                            None => {},
                        }
                    }
                }
                lemma_first_match_skip(data, f, body, base);
            }
            assert(first_match(data, f, base + from) == first_match(data, f, body));
            let c = close_fold(sigs, w, base, st.pending);
            assert(next.pending =~= c.open);
            assert(next.carved =~= c.closed);
        }
    } else {
        assert(st.known == Set::<u64>::empty());
        assert(close_fold(sigs, w, base, st.pending) == close_fold(sigs, w, base, Seq::<PendingFile>::empty()));
        if header_within(sig, data, next_pos) {
            let p = choose|p: int| matches_at(data, h, p) && p + h.len() <= next_pos;
            let body = p + h.len();
            assert(p + h.len() > pos);
            assert(base <= p);
            lemma_headers_one_new(sig, data, base, next_pos, st.known, p);
            lemma_first_match_window(data, f, base, next_pos, p - base + h.len());
            lemma_first_match(data, f, body);
            let hf = headers_fold(sigs, w, base, st.known);
            assert(hf.headers == seq![p as u64]);
            assert forall|v: u64| hf.headers.to_set().contains(v) <==> v == p as u64 by {
                if v == p as u64 {
                    assert(hf.headers[0] == v);
                }
            }
            assert(hf.headers.to_set() =~= set![p as u64]);
            assert(next.known =~= set![p as u64]);
            assert(next.pending =~= hf.pending);
            assert(next.carved =~= hf.found);
        } else {
            assert forall|m: int| matches_at(w, h, m) implies #[trigger] st.known.contains((base + m) as u64) by {
                assert(matches_at(data, h, base + m));
                assert(header_within(sig, data, next_pos));
            }
            lemma_headers_none_new(sig, data, base, next_pos, st.known);
            let hf = headers_fold(sigs, w, base, st.known);
            assert(hf.headers.to_set() =~= Set::<u64>::empty());
            assert(next.known =~= Set::<u64>::empty());
            assert(next.pending =~= Seq::<PendingFile>::empty());
            assert(next.carved =~= Seq::<CarvedFile>::empty());
        }
    }
}

/// The rest of a run from `pos` ends in the state that the whole source
/// determines.
proof fn lemma_lone_run(
    sig: SignatureModel,
    chunk: int,
    o: int,
    data: Seq<u8>,
    pos: int,
    overlap: Seq<u8>,
    st: ScanModel,
)
    requires
        sig.header.len() > 0,
        sig.footer.len() > 0,
        sig.header.len() <= o + 1,
        sig.footer.len() <= o + 1,
        header_at_most_once(sig, data),
        data.len() <= u64::MAX,
        chunk > 0,
        0 <= o <= chunk,
        0 <= pos <= data.len(),
        overlap.len() <= pos,
        overlap == data.subrange(pos - overlap.len(), pos),
        pos == 0 || pos == data.len() || overlap.len() == o,
        pos == 0 ==> overlap.len() == 0,
        lone_state(sig, data, pos, st),
    ensures
        lone_state(sig, data, data.len() as int, scan_run(seq![sig], chunk, o, data, pos, overlap, st)),
    decreases data.len() - pos,
{
    if pos < data.len() {
        let new_bytes = read_range(data, pos, chunk);
        lemma_read_range_len(data, pos, chunk);
        let next_pos = if pos + chunk <= data.len() { pos + chunk } else { data.len() as int };
        let w = overlap + new_bytes;
        let base = saturating_diff(pos, overlap.len() as int);
        assert(w =~= data.subrange(base, next_pos));
        lemma_lone_step(sig, data, o, pos, next_pos, base, st);
        let tail = tail_of(new_bytes, o);
        assert(tail =~= data.subrange(next_pos - tail.len(), next_pos));
        lemma_lone_run(sig, chunk, o, data, next_pos, tail, window_step(seq![sig], st, w, base));
    }
}

/// A scan with the single signature `sig`, whose header occurs at most once
/// in the source, reports the file that runs from that header to the end of
/// the first footer beginning after it, or nothing when there is no header
/// or no such footer; so where the chunk boundaries fall makes no difference.
/// This holds for chunks at least as long as the overlap (the longer pattern
/// minus one), and for non-empty patterns.
pub proof fn lemma_lone_signature_scan(sig: SignatureModel, chunk: int, data: Seq<u8>)
    requires
        data.len() <= u64::MAX,
        sig.header.len() > 0,
        sig.footer.len() > 0,
        header_at_most_once(sig, data),
        chunk > 0,
        chunk >= overlap_for(seq![sig]),
    ensures
        scan_model(seq![sig], chunk, data) == lone_result(sig, data),
{
    let sigs = seq![sig];
    let o = overlap_for(sigs);
    let h = sig.header;
    let f = sig.footer;
    assert(sigs.drop_last() =~= Seq::<SignatureModel>::empty());
    assert(sigs.last() == sig);
    assert(h.len() <= o + 1 && f.len() <= o + 1);
    assert(!header_within(sig, data, 0));
    assert(lone_state(sig, data, 0, initial_scan()));
    assert(Seq::<u8>::empty() =~= data.subrange(0, 0));
    lemma_lone_run(sig, chunk, o, data, 0, Seq::empty(), initial_scan());
    let run = scan_run(sigs, chunk, o, data, 0, Seq::empty(), initial_scan());
    let n = data.len() as int;
    if exists|p: int| matches_at(data, h, p) {
        let p = choose|p: int| matches_at(data, h, p);
        assert(matches_at(data, h, p) && p + h.len() <= n);
        assert(header_within(sig, data, n));
        let p2 = choose|p: int| matches_at(data, h, p) && p + h.len() <= n;
        assert(p2 == p);
        lemma_first_match(data, f, p + h.len());
        match first_match(data, f, p + h.len()) {
            Some(q) => {
                let x = CarvedFile { kind: sig.kind, offset_start: p as u64, offset_end: (q + f.len()) as u64 };
                assert(run.carved == seq![x]);
                assert(seq![x].drop_last() =~= Seq::<CarvedFile>::empty());
                assert(sort_by_start(seq![x].drop_last()) == Seq::<CarvedFile>::empty());
                assert(sort_by_start(seq![x]) =~= seq![x]);
            },
            None => {
                assert(run.carved == Seq::<CarvedFile>::empty());
            },
        }
    } else {
        assert(!header_within(sig, data, n));
        assert(run.carved == Seq::<CarvedFile>::empty());
    }
}

} // verus!
