//! Scans whose result does not depend on the chunk size: signatures of
//! different kinds, none of whose headers begins another's, each header
//! occurring at most once in the source.
use vstd::prelude::*;

use crate::carved_file::CarvedFile;
use crate::matcher::{all_matches, first_match, lemma_first_match, matches_at};
use crate::scan_headers::{headers_exclusive, lemma_same_place_prefix};
use crate::scan_lone::{header_at_most_once, lemma_first_match_skip, lemma_first_match_window, lemma_slice_headers};
use crate::scan_model::{
    close_fold, close_from, close_step, empty_search, footer_for, headers_fold, initial_scan, lemma_sort_by_start,
    max_pattern_len, overlap_for, scan_model, scan_run, search_fold, search_signature_model, sort_by_start,
    sorted_by_start, window_step, FooterCursors, PendingFile, ScanModel,
};
use crate::source::{lemma_read_range_len, read_range};
use crate::window::{saturating_diff, tail_of};
use crate::signature::{FileKind, SignatureModel};

verus! {

/// The conditions under which a scan's result does not depend on the chunk
/// size: non-empty patterns, one signature per kind, no header beginning
/// another's, and each header occurring at most once in `data`.
pub open spec fn chunk_free(sigs: Seq<SignatureModel>, data: Seq<u8>) -> bool {
    &&& forall|i: int| 0 <= i < sigs.len() ==> #[trigger] sigs[i].header.len() > 0 && sigs[i].footer.len() > 0
    &&& forall|i: int, j: int|
        0 <= i < sigs.len() && 0 <= j < sigs.len() && i != j ==> #[trigger] sigs[i].kind != #[trigger] sigs[j].kind
    &&& headers_exclusive(sigs)
    &&& forall|i: int| 0 <= i < sigs.len() ==> header_at_most_once(#[trigger] sigs[i], data)
}

/// Where the header of `sig` occurs (meaningful when it does).
spec fn head(sig: SignatureModel, data: Seq<u8>) -> int {
    choose|p: int| matches_at(data, sig.header, p)
}

/// The first `e` bytes of `data` hold the whole header of `sig`.
spec fn seen(sig: SignatureModel, data: Seq<u8>, e: int) -> bool {
    exists|p: int| matches_at(data, sig.header, p) && p + sig.header.len() <= e
}

/// The first `e` bytes of `data` also hold the first footer after the header.
spec fn closes(sig: SignatureModel, data: Seq<u8>, e: int) -> bool {
    match first_match(data, sig.footer, head(sig, data) + sig.header.len()) {
        Some(q) => q + sig.footer.len() <= e,
        None => false,
    }
}

/// The file of `sig` while it waits for its footer.
spec fn pend_of(sig: SignatureModel, data: Seq<u8>) -> PendingFile {
    PendingFile {
        kind: sig.kind,
        start_abs: head(sig, data) as u64,
        body_abs: (head(sig, data) + sig.header.len()) as u64,
    }
}

/// The file of `sig` once carved.
spec fn file_of(sig: SignatureModel, data: Seq<u8>) -> CarvedFile {
    CarvedFile {
        kind: sig.kind,
        offset_start: head(sig, data) as u64,
        offset_end: (match first_match(data, sig.footer, head(sig, data) + sig.header.len()) {
            Some(q) => q + sig.footer.len(),
            None => 0,
        }) as u64,
    }
}

proof fn lemma_head(sig: SignatureModel, data: Seq<u8>, e: int)
    requires
        header_at_most_once(sig, data),
        seen(sig, data, e),
    ensures
        matches_at(data, sig.header, head(sig, data)),
        head(sig, data) + sig.header.len() <= e,
        0 <= head(sig, data),
        head(sig, data) + sig.header.len() <= data.len(),
{
    let p = choose|p: int| matches_at(data, sig.header, p) && p + sig.header.len() <= e;
    assert(matches_at(data, sig.header, p));
    let h = head(sig, data);
    assert(matches_at(data, sig.header, h));
}

/// Two different signatures never have their headers at the same place.
proof fn lemma_heads_differ(sigs: Seq<SignatureModel>, data: Seq<u8>, i: int, j: int, p: int)
    requires
        chunk_free(sigs, data),
        0 <= i < sigs.len(),
        0 <= j < sigs.len(),
        i != j,
        matches_at(data, sigs[i].header, p),
    ensures
        !matches_at(data, sigs[j].header, p),
{
    assert(sigs[i].header.len() > 0 && sigs[j].header.len() > 0);
    if matches_at(data, sigs[j].header, p) {
        if sigs[i].header.len() <= sigs[j].header.len() {
            lemma_same_place_prefix(data, sigs[i].header, sigs[j].header, p);
        } else {
            lemma_same_place_prefix(data, sigs[j].header, sigs[i].header, p);
        }
    }
}

/// With one signature per kind, the footer looked for by kind is the
/// signature's own.
proof fn lemma_footer_for(sigs: Seq<SignatureModel>, i: int)
    requires
        0 <= i < sigs.len(),
        forall|a: int, b: int|
            0 <= a < sigs.len() && 0 <= b < sigs.len() && a != b ==> #[trigger] sigs[a].kind != #[trigger] sigs[b].kind,
    ensures
        footer_for(sigs, sigs[i].kind) == sigs[i].footer,
    decreases i,
{
    if i > 0 {
        let rest = sigs.drop_first();
        assert(sigs[0].kind != sigs[i].kind);
        assert forall|a: int, b: int|
            0 <= a < rest.len() && 0 <= b < rest.len() && a != b implies #[trigger] rest[a].kind
                != #[trigger] rest[b].kind by {
            assert(rest[a] == sigs[a + 1] && rest[b] == sigs[b + 1]);
        }
        assert(rest[i - 1] == sigs[i]);
        lemma_footer_for(rest, i - 1);
    }
}

/// The header search of one signature in one window holding no header of it
/// that is not known yet: nothing.
pub(crate) proof fn lemma_search_none_new(sig: SignatureModel, data: Seq<u8>, base: int, end: int, known: Set<u64>)
    requires
        sig.header.len() > 0,
        header_at_most_once(sig, data),
        0 <= base <= end <= data.len(),
        forall|m: int|
            matches_at(data.subrange(base, end), sig.header, m) ==> known.contains(#[trigger] ((base + m) as u64)),
    ensures
        search_signature_model(sig, data.subrange(base, end), base, known) == empty_search(),
{
    let w = data.subrange(base, end);
    lemma_slice_headers(sig, data, base, end);
    let hs = all_matches(w, sig.header);
    if hs.len() == 1 {
        assert(matches_at(w, sig.header, hs[0]));
        assert(known.contains((base + hs[0]) as u64));
        assert(hs.drop_last() =~= Seq::<int>::empty());
        assert(search_fold(sig, w, base, known, hs.drop_last()) == empty_search());
        assert(hs.last() == hs[0]);
    }
}

/// The header search of one signature in one window holding its header at
/// `p`, not known yet: it is registered, and carved when its footer follows
/// in the window, else left pending.
pub(crate) proof fn lemma_search_one_new(sig: SignatureModel, data: Seq<u8>, base: int, end: int, known: Set<u64>, p: int)
    requires
        sig.header.len() > 0,
        header_at_most_once(sig, data),
        0 <= base <= p,
        p + sig.header.len() <= end <= data.len() <= u64::MAX,
        matches_at(data, sig.header, p),
        !known.contains(p as u64),
    ensures
        ({
            let b = search_signature_model(sig, data.subrange(base, end), base, known);
            &&& b.headers == seq![p as u64]
            &&& match first_match(data.subrange(base, end), sig.footer, p - base + sig.header.len()) {
                Some(f) => {
                    &&& b.pending == Seq::<PendingFile>::empty()
                    &&& b.found == seq![
                        CarvedFile {
                            kind: sig.kind,
                            offset_start: p as u64,
                            offset_end: (base + f + sig.footer.len()) as u64,
                        },
                    ]
                },
                None => {
                    &&& b.found == Seq::<CarvedFile>::empty()
                    &&& b.pending == seq![
                        PendingFile {
                            kind: sig.kind,
                            start_abs: p as u64,
                            body_abs: (p + sig.header.len()) as u64,
                        },
                    ]
                },
            }
        }),
{
    let w = data.subrange(base, end);
    lemma_slice_headers(sig, data, base, end);
    let m = p - base;
    assert(matches_at(w, sig.header, m));
    let hs = all_matches(w, sig.header);
    assert(hs.contains(m));
    let k = choose|k: int| 0 <= k < hs.len() && hs[k] == m;
    assert(hs.len() == 1 && hs[0] == m);
    assert(hs.drop_last() =~= Seq::<int>::empty());
    assert(search_fold(sig, w, base, known, hs.drop_last()) == empty_search());
    assert(hs.last() == m);
}

proof fn lemma_push_contains<A>(s: Seq<A>, a: A, x: A)
    ensures
        s.push(a).contains(x) <==> (s.contains(x) || x == a),
{
    if s.push(a).contains(x) {
        let i = choose|i: int| 0 <= i < s.push(a).len() && s.push(a)[i] == x;
        if i < s.len() {
            assert(s[i] == x);
        }
    }
    if s.contains(x) {
        let i = choose|i: int| 0 <= i < s.len() && s[i] == x;
        assert(s.push(a)[i] == x);
    }
    if x == a {
        assert(s.push(a)[s.len() as int] == x);
    }
}

proof fn lemma_cursor_with(c: FooterCursors, kind: FileKind, v: usize, k: FileKind)
    ensures
        c.with(kind, v).at(k) == (if k == kind { v } else { c.at(k) }),
{
    match kind {
        FileKind::Jpeg => {},
        FileKind::Png => {},
        FileKind::Pdf => {},
        FileKind::Zip => {},
    }
}

proof fn lemma_push_no_dup<A>(s: Seq<A>, a: A)
    requires
        s.no_duplicates(),
        !s.contains(a),
    ensures
        s.push(a).no_duplicates(),
{
    assert forall|i: int, j: int| 0 <= i < s.push(a).len() && 0 <= j < s.push(a).len() && i != j implies s.push(a)[i]
        != s.push(a)[j] by {
        if i < s.len() && j < s.len() {
        } else if i < s.len() {
            assert(s.contains(s[i]));
        } else if j < s.len() {
            assert(s.contains(s[j]));
        }
    }
}

/// Where the footer of pending file `x` is found in window `w` (from the end
/// of its header, or the window's start), the file it closes as.
spec fn close_result(sigs: Seq<SignatureModel>, w: Seq<u8>, base: int, x: PendingFile) -> Option<CarvedFile> {
    let footer = footer_for(sigs, x.kind);
    match first_match(w, footer, saturating_diff(x.body_abs as int, base)) {
        Some(f) => Some(
            CarvedFile { kind: x.kind, offset_start: x.start_abs, offset_end: (base + f + footer.len()) as u64 },
        ),
        None => None,
    }
}

/// Closing pending files of pairwise different kinds and starts: each one
/// is closed, or kept open, on its own.
proof fn lemma_close_many(sigs: Seq<SignatureModel>, w: Seq<u8>, base: int, pl: Seq<PendingFile>)
    requires
        forall|a: int, b: int|
            0 <= a < pl.len() && 0 <= b < pl.len() && a != b ==> #[trigger] pl[a].kind != #[trigger] pl[b].kind
                && pl[a].start_abs != pl[b].start_abs,
    ensures
        ({
            let c = close_fold(sigs, w, base, pl);
            &&& c.open.no_duplicates()
            &&& c.closed.no_duplicates()
            &&& forall|x: PendingFile| #[trigger]
                c.open.contains(x) <==> pl.contains(x) && close_result(sigs, w, base, x) is None
            &&& forall|y: CarvedFile| #[trigger]
                c.closed.contains(y) <==> exists|x: PendingFile|
                    pl.contains(x) && #[trigger] close_result(sigs, w, base, x) == Some(y)
            &&& forall|k: FileKind| (forall|a: int| 0 <= a < pl.len() ==> #[trigger] pl[a].kind != k) ==> c.cursors.at(k) == 0
        }),
    decreases pl.len(),
{
    if pl.len() > 0 {
        let rest = pl.drop_last();
        let last = pl.last();
        assert forall|a: int, b: int|
            0 <= a < rest.len() && 0 <= b < rest.len() && a != b implies #[trigger] rest[a].kind
                != #[trigger] rest[b].kind && rest[a].start_abs != rest[b].start_abs by {
            assert(rest[a] == pl[a] && rest[b] == pl[b]);
        }
        lemma_close_many(sigs, w, base, rest);
        let c0 = close_fold(sigs, w, base, rest);
        assert forall|a: int| 0 <= a < rest.len() implies #[trigger] rest[a].kind != last.kind by {
            assert(rest[a] == pl[a]);
            assert(pl[a].kind != pl[pl.len() - 1].kind);
        }
        assert(c0.cursors.at(last.kind) == 0);
        assert(pl =~= rest.push(last));
        assert(!rest.contains(last)) by {
            if rest.contains(last) {
                let a = choose|a: int| 0 <= a < rest.len() && rest[a] == last;
                assert(pl[a] == last);
                assert(pl[a].start_abs != pl[pl.len() - 1].start_abs);
            }
        }
        let c = close_fold(sigs, w, base, pl);
        assert(close_from(c0.cursors.at(last.kind), last, base) == saturating_diff(last.body_abs as int, base));
        assert(c == close_step(sigs, w, base, c0, last));
        assert forall|k: FileKind| (forall|a: int| 0 <= a < pl.len() ==> #[trigger] pl[a].kind != k) implies c.cursors.at(k) == 0 by {
            assert forall|a: int| 0 <= a < rest.len() implies #[trigger] rest[a].kind != k by {
                assert(rest[a] == pl[a]);
            }
            assert(pl[pl.len() - 1].kind != k);
            let footer = footer_for(sigs, last.kind);
            match first_match(w, footer, saturating_diff(last.body_abs as int, base)) {
                Some(f) => {
                    lemma_cursor_with(c0.cursors, last.kind, (f + footer.len()) as usize, k);
                },
                None => {},
            }
        }
        match close_result(sigs, w, base, last) {
            Some(y) => {
                assert(!c0.closed.contains(y)) by {
                    if c0.closed.contains(y) {
                        let x = choose|x: PendingFile| rest.contains(x) && #[trigger] close_result(sigs, w, base, x) == Some(y);
                        let a = choose|a: int| 0 <= a < rest.len() && rest[a] == x;
                        assert(pl[a] == x);
                        assert(pl[a].start_abs != pl[pl.len() - 1].start_abs);
                    }
                }
                lemma_push_no_dup(c0.closed, y);
                assert(c.closed == c0.closed.push(y));
                assert(c.open == c0.open);
                assert forall|x: PendingFile| #[trigger]
                    c.open.contains(x) <==> pl.contains(x) && close_result(sigs, w, base, x) is None by {
                    lemma_push_contains(rest, last, x);
                }
                assert forall|y2: CarvedFile| #[trigger] c.closed.contains(y2) <==> exists|x: PendingFile|
                    pl.contains(x) && #[trigger] close_result(sigs, w, base, x) == Some(y2) by {
                    lemma_push_contains(c0.closed, y, y2);
                    if c.closed.contains(y2) {
                        if y2 == y {
                            assert(pl.contains(last));
                            assert(close_result(sigs, w, base, last) == Some(y2));
                        } else {
                            assert(c0.closed.contains(y2));
                            let x = choose|x: PendingFile| rest.contains(x) && #[trigger] close_result(sigs, w, base, x) == Some(y2);
                            assert(pl.contains(x));
                        }
                    }
                    if exists|x: PendingFile| pl.contains(x) && #[trigger] close_result(sigs, w, base, x) == Some(y2) {
                        let x = choose|x: PendingFile| pl.contains(x) && #[trigger] close_result(sigs, w, base, x) == Some(y2);
                        lemma_push_contains(rest, last, x);
                        if x != last {
                            assert(rest.contains(x));
                            assert(c0.closed.contains(y2));
                        }
                    }
                }
            },
            None => {
                lemma_push_no_dup(c0.open, last);
                assert(c.open == c0.open.push(last));
                assert(c.closed == c0.closed);
                assert forall|x: PendingFile| #[trigger]
                    c.open.contains(x) <==> pl.contains(x) && close_result(sigs, w, base, x) is None by {
                    lemma_push_contains(rest, last, x);
                    lemma_push_contains(c0.open, last, x);
                }
                assert forall|y2: CarvedFile| #[trigger] c.closed.contains(y2) <==> exists|x: PendingFile|
                    pl.contains(x) && #[trigger] close_result(sigs, w, base, x) == Some(y2) by {
                    if c.closed.contains(y2) {
                        let x = choose|x: PendingFile| rest.contains(x) && #[trigger] close_result(sigs, w, base, x) == Some(y2);
                        assert(pl.contains(x));
                    }
                    if exists|x: PendingFile| pl.contains(x) && #[trigger] close_result(sigs, w, base, x) == Some(y2) {
                        let x = choose|x: PendingFile| pl.contains(x) && #[trigger] close_result(sigs, w, base, x) == Some(y2);
                        lemma_push_contains(rest, last, x);
                        assert(x != last);
                        assert(rest.contains(x));
                    }
                }
            },
        }
    } else {
        let c = close_fold(sigs, w, base, pl);
        assert(c.cursors == FooterCursors::zero());
    }
}

proof fn lemma_concat_contains<A>(a: Seq<A>, b: Seq<A>, x: A)
    ensures
        (a + b).contains(x) <==> (a.contains(x) || b.contains(x)),
{
    if (a + b).contains(x) {
        let i = choose|i: int| 0 <= i < (a + b).len() && (a + b)[i] == x;
        if i < a.len() {
            assert(a[i] == x);
        } else {
            assert(b[i - a.len()] == x);
        }
    }
    if a.contains(x) {
        let i = choose|i: int| 0 <= i < a.len() && a[i] == x;
        assert((a + b)[i] == x);
    }
    if b.contains(x) {
        let i = choose|i: int| 0 <= i < b.len() && b[i] == x;
        assert((a + b)[a.len() + i] == x);
    }
}

/// The whole header of `sig` lies in the bytes read by `end` but not in
/// those read by `pos`.
spec fn new_in(sig: SignatureModel, data: Seq<u8>, pos: int, end: int) -> bool {
    seen(sig, data, end) && !seen(sig, data, pos)
}

/// The headers already registered are those of the signatures seen by `pos`.
spec fn known_by(sigs: Seq<SignatureModel>, data: Seq<u8>, pos: int, known: Set<u64>) -> bool {
    forall|v: u64| #[trigger]
        known.contains(v) <==> exists|j: int|
            0 <= j < sigs.len() && seen(sigs[j], data, pos) && v == #[trigger] head(sigs[j], data) as u64
}

/// A window `[base, end)` that follows the bytes read by `pos` and carries
/// the overlap `o`.
spec fn window_after(data: Seq<u8>, o: int, base: int, pos: int, end: int) -> bool {
    &&& 0 <= base <= pos < end <= data.len()
    &&& data.len() <= u64::MAX
    &&& pos == 0 ==> base == 0
    &&& pos == 0 || base == pos - o
}

/// What the header search of signature `i` gives in the window.
proof fn lemma_search_fate(
    sigs: Seq<SignatureModel>,
    data: Seq<u8>,
    i: int,
    o: int,
    base: int,
    pos: int,
    end: int,
    known: Set<u64>,
)
    requires
        chunk_free(sigs, data),
        0 <= i < sigs.len(),
        sigs[i].header.len() <= o + 1,
        window_after(data, o, base, pos, end),
        known_by(sigs, data, pos, known),
    ensures
        ({
            let b = search_signature_model(sigs[i], data.subrange(base, end), base, known);
            if new_in(sigs[i], data, pos, end) {
                &&& b.headers == seq![head(sigs[i], data) as u64]
                &&& if closes(sigs[i], data, end) {
                    &&& b.found == seq![file_of(sigs[i], data)]
                    &&& b.pending == Seq::<PendingFile>::empty()
                } else {
                    &&& b.pending == seq![pend_of(sigs[i], data)]
                    &&& b.found == Seq::<CarvedFile>::empty()
                }
            } else {
                b == empty_search()
            }
        }),
{
    let sig = sigs[i];
    let h = sig.header;
    let w = data.subrange(base, end);
    assert(sig.header.len() > 0 && sig.footer.len() > 0);
    assert(header_at_most_once(sig, data));
    lemma_slice_headers(sig, data, base, end);
    if seen(sig, data, pos) {
        lemma_head(sig, data, pos);
        let p = head(sig, data);
        assert forall|m: int| matches_at(w, h, m) implies known.contains(#[trigger] ((base + m) as u64)) by {
            assert(matches_at(data, h, base + m));
            assert(base + m == p);
            assert(seen(sigs[i], data, pos) && (base + m) as u64 == head(sigs[i], data) as u64);
        }
        lemma_search_none_new(sig, data, base, end, known);
    } else if seen(sig, data, end) {
        lemma_head(sig, data, end);
        let p = head(sig, data);
        assert(p + h.len() > pos);
        assert(base <= p);
        assert(!known.contains(p as u64)) by {
            if known.contains(p as u64) {
                let j = choose|j: int|
                    0 <= j < sigs.len() && seen(sigs[j], data, pos) && p as u64 == #[trigger] head(sigs[j], data) as u64;
                assert(header_at_most_once(sigs[j], data));
                lemma_head(sigs[j], data, pos);
                assert(head(sigs[j], data) == p);
                assert(j != i);
                lemma_heads_differ(sigs, data, i, j, p);
            }
        }
        lemma_search_one_new(sig, data, base, end, known, p);
        lemma_first_match_window(data, sig.footer, base, end, p - base + h.len());
        lemma_first_match(data, sig.footer, p + h.len());
    } else {
        assert forall|m: int| matches_at(w, h, m) implies known.contains(#[trigger] ((base + m) as u64)) by {
            assert(matches_at(data, h, base + m));
            assert(seen(sig, data, end));
        }
        lemma_search_none_new(sig, data, base, end, known);
    }
}

/// What the header search of the first `n` signatures gives in the window:
/// each newly whole header, carved or left pending.
proof fn lemma_headers_many(
    sigs: Seq<SignatureModel>,
    data: Seq<u8>,
    n: int,
    o: int,
    base: int,
    pos: int,
    end: int,
    known: Set<u64>,
)
    requires
        chunk_free(sigs, data),
        0 <= n <= sigs.len(),
        forall|i: int| 0 <= i < sigs.len() ==> #[trigger] sigs[i].header.len() <= o + 1,
        window_after(data, o, base, pos, end),
        known_by(sigs, data, pos, known),
    ensures
        ({
            let h = headers_fold(sigs.take(n), data.subrange(base, end), base, known);
            &&& h.pending.no_duplicates()
            &&& h.found.no_duplicates()
            &&& forall|x: PendingFile| #[trigger]
                h.pending.contains(x) <==> exists|i: int|
                    0 <= i < n && new_in(sigs[i], data, pos, end) && !closes(sigs[i], data, end) && x
                        == #[trigger] pend_of(sigs[i], data)
            &&& forall|y: CarvedFile| #[trigger]
                h.found.contains(y) <==> exists|i: int|
                    0 <= i < n && new_in(sigs[i], data, pos, end) && closes(sigs[i], data, end) && y
                        == #[trigger] file_of(sigs[i], data)
            &&& forall|v: u64| #[trigger]
                h.headers.contains(v) <==> exists|i: int|
                    0 <= i < n && new_in(sigs[i], data, pos, end) && v == #[trigger] head(sigs[i], data) as u64
        }),
    decreases n,
{
    let w = data.subrange(base, end);
    if n == 0 {
        assert(sigs.take(0) =~= Seq::<SignatureModel>::empty());
        let h = headers_fold(sigs.take(0), w, base, known);
        assert(h == empty_search());
    } else {
        lemma_headers_many(sigs, data, n - 1, o, base, pos, end, known);
        assert(sigs.take(n).drop_last() =~= sigs.take(n - 1));
        assert(sigs.take(n).last() == sigs[n - 1]);
        let h0 = headers_fold(sigs.take(n - 1), w, base, known);
        let b = search_signature_model(sigs[n - 1], w, base, known);
        let h = headers_fold(sigs.take(n), w, base, known);
        assert(h.pending == h0.pending + b.pending);
        assert(h.found == h0.found + b.found);
        assert(h.headers == h0.headers + b.headers);
        lemma_search_fate(sigs, data, n - 1, o, base, pos, end, known);
        let last = n - 1;
        // what the earlier signatures contributed differs from the last one's
        assert forall|a: int, c: int| 0 <= a < h0.pending.len() && 0 <= c < b.pending.len() implies h0.pending[a]
            != b.pending[c] by {
            assert(h0.pending.contains(h0.pending[a]));
            let i = choose|i: int|
                0 <= i < n - 1 && new_in(sigs[i], data, pos, end) && !closes(sigs[i], data, end) && h0.pending[a]
                    == #[trigger] pend_of(sigs[i], data);
            assert(sigs[i].kind != sigs[last].kind);
        }
        assert forall|a: int, c: int| 0 <= a < h0.found.len() && 0 <= c < b.found.len() implies h0.found[a]
            != b.found[c] by {
            assert(h0.found.contains(h0.found[a]));
            let i = choose|i: int|
                0 <= i < n - 1 && new_in(sigs[i], data, pos, end) && closes(sigs[i], data, end) && h0.found[a]
                    == #[trigger] file_of(sigs[i], data);
            assert(sigs[i].kind != sigs[last].kind);
        }
        vstd::seq_lib::lemma_no_dup_in_concat(h0.pending, b.pending);
        vstd::seq_lib::lemma_no_dup_in_concat(h0.found, b.found);
        assert forall|x: PendingFile| #[trigger] h.pending.contains(x) <==> exists|i: int|
            0 <= i < n && new_in(sigs[i], data, pos, end) && !closes(sigs[i], data, end) && x
                == #[trigger] pend_of(sigs[i], data) by {
            lemma_concat_contains(h0.pending, b.pending, x);
            if b.pending.contains(x) {
                assert(b.pending[0] == x);
            }
            if exists|i: int|
                0 <= i < n && new_in(sigs[i], data, pos, end) && !closes(sigs[i], data, end) && x
                    == #[trigger] pend_of(sigs[i], data) {
                let i = choose|i: int|
                    0 <= i < n && new_in(sigs[i], data, pos, end) && !closes(sigs[i], data, end) && x
                        == #[trigger] pend_of(sigs[i], data);
                if i == last {
                    assert(b.pending[0] == x);
                    assert(b.pending.contains(x));
                } else {
                    assert(h0.pending.contains(x));
                }
            }
        }
        assert forall|y: CarvedFile| #[trigger] h.found.contains(y) <==> exists|i: int|
            0 <= i < n && new_in(sigs[i], data, pos, end) && closes(sigs[i], data, end) && y
                == #[trigger] file_of(sigs[i], data) by {
            lemma_concat_contains(h0.found, b.found, y);
            if b.found.contains(y) {
                assert(b.found[0] == y);
            }
            if exists|i: int|
                0 <= i < n && new_in(sigs[i], data, pos, end) && closes(sigs[i], data, end) && y
                    == #[trigger] file_of(sigs[i], data) {
                let i = choose|i: int|
                    0 <= i < n && new_in(sigs[i], data, pos, end) && closes(sigs[i], data, end) && y
                        == #[trigger] file_of(sigs[i], data);
                if i == last {
                    assert(b.found[0] == y);
                    assert(b.found.contains(y));
                } else {
                    assert(h0.found.contains(y));
                }
            }
        }
        assert forall|v: u64| #[trigger] h.headers.contains(v) <==> exists|i: int|
            0 <= i < n && new_in(sigs[i], data, pos, end) && v == #[trigger] head(sigs[i], data) as u64 by {
            lemma_concat_contains(h0.headers, b.headers, v);
            if b.headers.contains(v) {
                assert(b.headers[0] == v);
            }
            if exists|i: int| 0 <= i < n && new_in(sigs[i], data, pos, end) && v == #[trigger] head(sigs[i], data) as u64 {
                let i = choose|i: int|
                    0 <= i < n && new_in(sigs[i], data, pos, end) && v == #[trigger] head(sigs[i], data) as u64;
                if i == last {
                    assert(b.headers[0] == v);
                    assert(b.headers.contains(v));
                } else {
                    assert(h0.headers.contains(v));
                }
            }
        }
    }
}

/// The scan state after the first `e` bytes of `data` have been read: the
/// files of the signatures whose header has been read, carved once their
/// first footer after it has been read too, else pending; and their headers.
spec fn chunk_state(sigs: Seq<SignatureModel>, data: Seq<u8>, e: int, st: ScanModel) -> bool {
    &&& st.pending.no_duplicates()
    &&& st.carved.no_duplicates()
    &&& forall|x: PendingFile| #[trigger]
        st.pending.contains(x) <==> exists|i: int|
            0 <= i < sigs.len() && seen(sigs[i], data, e) && !closes(sigs[i], data, e) && x
                == #[trigger] pend_of(sigs[i], data)
    &&& forall|y: CarvedFile| #[trigger]
        st.carved.contains(y) <==> exists|i: int|
            0 <= i < sigs.len() && seen(sigs[i], data, e) && closes(sigs[i], data, e) && y
                == #[trigger] file_of(sigs[i], data)
    &&& known_by(sigs, data, e, st.known)
}

/// Closing the pending file of signature `i` in the window: it closes, as
/// its own file, exactly when its first footer has been read by `end`.
proof fn lemma_close_fate(sigs: Seq<SignatureModel>, data: Seq<u8>, i: int, o: int, base: int, pos: int, end: int)
    requires
        chunk_free(sigs, data),
        0 <= i < sigs.len(),
        sigs[i].footer.len() <= o + 1,
        window_after(data, o, base, pos, end),
        seen(sigs[i], data, pos),
        !closes(sigs[i], data, pos),
    ensures
        close_result(sigs, data.subrange(base, end), base, pend_of(sigs[i], data)) == (if closes(
            sigs[i],
            data,
            end,
        ) {
            Some(file_of(sigs[i], data))
        } else {
            None
        }),
{
    let sig = sigs[i];
    let f = sig.footer;
    assert(header_at_most_once(sig, data));
    assert(sig.header.len() > 0 && f.len() > 0);
    lemma_head(sig, data, pos);
    lemma_footer_for(sigs, i);
    let body = head(sig, data) + sig.header.len();
    let pf = pend_of(sig, data);
    assert(pf.body_abs as int == body);
    let from = saturating_diff(body, base);
    lemma_first_match_window(data, f, base, end, from);
    lemma_first_match(data, f, body);
    if body < base {
        assert forall|j: int| body <= j < base implies !matches_at(data, f, j) by {
            if matches_at(data, f, j) {
                match first_match(data, f, body) {
                    Some(q) => {
                        assert(q <= j);
                    },
                    None => {},
                }
            }
        }
        lemma_first_match_skip(data, f, body, base);
    }
    assert(first_match(data, f, base + from) == first_match(data, f, body));
}

/// One window keeps the scan in the state that the bytes read so far
/// determine.
proof fn lemma_chunk_step(sigs: Seq<SignatureModel>, data: Seq<u8>, o: int, base: int, pos: int, end: int, st: ScanModel)
    requires
        chunk_free(sigs, data),
        forall|i: int| 0 <= i < sigs.len() ==> #[trigger] sigs[i].header.len() <= o + 1 && sigs[i].footer.len() <= o + 1,
        window_after(data, o, base, pos, end),
        chunk_state(sigs, data, pos, st),
    ensures
        chunk_state(sigs, data, end, window_step(sigs, st, data.subrange(base, end), base)),
{
    let w = data.subrange(base, end);
    let n = sigs.len() as int;
    let pl = st.pending;
    // the pending files are of different kinds and starts
    assert forall|a: int, b: int| 0 <= a < pl.len() && 0 <= b < pl.len() && a != b implies #[trigger] pl[a].kind
        != #[trigger] pl[b].kind && pl[a].start_abs != pl[b].start_abs by {
        assert(pl.contains(pl[a]) && pl.contains(pl[b]));
        let i = choose|i: int|
            0 <= i < sigs.len() && seen(sigs[i], data, pos) && !closes(sigs[i], data, pos) && pl[a]
                == #[trigger] pend_of(sigs[i], data);
        let j = choose|j: int|
            0 <= j < sigs.len() && seen(sigs[j], data, pos) && !closes(sigs[j], data, pos) && pl[b]
                == #[trigger] pend_of(sigs[j], data);
        assert(pl[a] != pl[b]);
        assert(i != j);
        assert(header_at_most_once(sigs[i], data) && header_at_most_once(sigs[j], data));
        lemma_head(sigs[i], data, pos);
        lemma_head(sigs[j], data, pos);
        if head(sigs[i], data) == head(sigs[j], data) {
            lemma_heads_differ(sigs, data, i, j, head(sigs[i], data));
        }
    }
    lemma_close_many(sigs, w, base, pl);
    let c = close_fold(sigs, w, base, pl);
    lemma_headers_many(sigs, data, n, o, base, pos, end, st.known);
    assert(sigs.take(n) =~= sigs);
    let h = headers_fold(sigs, w, base, st.known);
    let next = window_step(sigs, st, w, base);
    assert(next.pending == c.open + h.pending);
    assert(next.carved == st.carved + c.closed + h.found);
    assert(next.known == st.known.union(h.headers.to_set()));
    assert forall|i: int| 0 <= i < sigs.len() && seen(sigs[i], data, pos) implies #[trigger] seen(sigs[i], data, end) by {
        let p = choose|p: int| matches_at(data, sigs[i].header, p) && p + sigs[i].header.len() <= pos;
        assert(matches_at(data, sigs[i].header, p) && p + sigs[i].header.len() <= end);
    }
    // pending files
    assert forall|a: int, b: int| 0 <= a < c.open.len() && 0 <= b < h.pending.len() implies c.open[a] != h.pending[b] by {
        assert(c.open.contains(c.open[a]));
        assert(pl.contains(c.open[a]));
        assert(h.pending.contains(h.pending[b]));
        let i = choose|i: int|
            0 <= i < sigs.len() && seen(sigs[i], data, pos) && !closes(sigs[i], data, pos) && c.open[a]
                == #[trigger] pend_of(sigs[i], data);
        let j = choose|j: int|
            0 <= j < n && new_in(sigs[j], data, pos, end) && !closes(sigs[j], data, end) && h.pending[b]
                == #[trigger] pend_of(sigs[j], data);
        assert(i != j);
    }
    vstd::seq_lib::lemma_no_dup_in_concat(c.open, h.pending);
    assert forall|x: PendingFile| #[trigger] next.pending.contains(x) <==> exists|i: int|
        0 <= i < sigs.len() && seen(sigs[i], data, end) && !closes(sigs[i], data, end) && x
            == #[trigger] pend_of(sigs[i], data) by {
        lemma_concat_contains(c.open, h.pending, x);
        if c.open.contains(x) {
            let i = choose|i: int|
                0 <= i < sigs.len() && seen(sigs[i], data, pos) && !closes(sigs[i], data, pos) && x
                    == #[trigger] pend_of(sigs[i], data);
            lemma_close_fate(sigs, data, i, o, base, pos, end);
        }
        if exists|i: int|
            0 <= i < sigs.len() && seen(sigs[i], data, end) && !closes(sigs[i], data, end) && x
                == #[trigger] pend_of(sigs[i], data) {
            let i = choose|i: int|
                0 <= i < sigs.len() && seen(sigs[i], data, end) && !closes(sigs[i], data, end) && x
                    == #[trigger] pend_of(sigs[i], data);
            if seen(sigs[i], data, pos) {
                assert(!closes(sigs[i], data, pos));
                assert(pl.contains(x));
                lemma_close_fate(sigs, data, i, o, base, pos, end);
                assert(c.open.contains(x));
            } else {
                assert(new_in(sigs[i], data, pos, end));
                assert(h.pending.contains(x));
            }
        }
    }
    // carved files
    let sc = st.carved + c.closed;
    assert forall|a: int, b: int| 0 <= a < st.carved.len() && 0 <= b < c.closed.len() implies st.carved[a]
        != c.closed[b] by {
        assert(st.carved.contains(st.carved[a]));
        assert(c.closed.contains(c.closed[b]));
        let i = choose|i: int|
            0 <= i < sigs.len() && seen(sigs[i], data, pos) && closes(sigs[i], data, pos) && st.carved[a]
                == #[trigger] file_of(sigs[i], data);
        let x = choose|x: PendingFile| pl.contains(x) && #[trigger] close_result(sigs, w, base, x) == Some(c.closed[b]);
        let j = choose|j: int|
            0 <= j < sigs.len() && seen(sigs[j], data, pos) && !closes(sigs[j], data, pos) && x
                == #[trigger] pend_of(sigs[j], data);
        lemma_close_fate(sigs, data, j, o, base, pos, end);
        assert(i != j);
    }
    vstd::seq_lib::lemma_no_dup_in_concat(st.carved, c.closed);
    assert forall|a: int, b: int| 0 <= a < sc.len() && 0 <= b < h.found.len() implies sc[a] != h.found[b] by {
        assert(sc.contains(sc[a]));
        lemma_concat_contains(st.carved, c.closed, sc[a]);
        assert(h.found.contains(h.found[b]));
        let j = choose|j: int|
            0 <= j < n && new_in(sigs[j], data, pos, end) && closes(sigs[j], data, end) && h.found[b]
                == #[trigger] file_of(sigs[j], data);
        if st.carved.contains(sc[a]) {
            let i = choose|i: int|
                0 <= i < sigs.len() && seen(sigs[i], data, pos) && closes(sigs[i], data, pos) && sc[a]
                    == #[trigger] file_of(sigs[i], data);
            assert(i != j);
        } else {
            let x = choose|x: PendingFile| pl.contains(x) && #[trigger] close_result(sigs, w, base, x) == Some(sc[a]);
            let i = choose|i: int|
                0 <= i < sigs.len() && seen(sigs[i], data, pos) && !closes(sigs[i], data, pos) && x
                    == #[trigger] pend_of(sigs[i], data);
            lemma_close_fate(sigs, data, i, o, base, pos, end);
            assert(i != j);
        }
    }
    vstd::seq_lib::lemma_no_dup_in_concat(sc, h.found);
    assert forall|y: CarvedFile| #[trigger] next.carved.contains(y) <==> exists|i: int|
        0 <= i < sigs.len() && seen(sigs[i], data, end) && closes(sigs[i], data, end) && y
            == #[trigger] file_of(sigs[i], data) by {
        lemma_concat_contains(sc, h.found, y);
        lemma_concat_contains(st.carved, c.closed, y);
        if st.carved.contains(y) {
            let i = choose|i: int|
                0 <= i < sigs.len() && seen(sigs[i], data, pos) && closes(sigs[i], data, pos) && y
                    == #[trigger] file_of(sigs[i], data);
            assert(seen(sigs[i], data, end) && closes(sigs[i], data, end));
        }
        if c.closed.contains(y) {
            let x = choose|x: PendingFile| pl.contains(x) && #[trigger] close_result(sigs, w, base, x) == Some(y);
            let i = choose|i: int|
                0 <= i < sigs.len() && seen(sigs[i], data, pos) && !closes(sigs[i], data, pos) && x
                    == #[trigger] pend_of(sigs[i], data);
            lemma_close_fate(sigs, data, i, o, base, pos, end);
        }
        if exists|i: int|
            0 <= i < sigs.len() && seen(sigs[i], data, end) && closes(sigs[i], data, end) && y
                == #[trigger] file_of(sigs[i], data) {
            let i = choose|i: int|
                0 <= i < sigs.len() && seen(sigs[i], data, end) && closes(sigs[i], data, end) && y
                    == #[trigger] file_of(sigs[i], data);
            if seen(sigs[i], data, pos) {
                if closes(sigs[i], data, pos) {
                    assert(st.carved.contains(y));
                } else {
                    let x = pend_of(sigs[i], data);
                    assert(pl.contains(x));
                    lemma_close_fate(sigs, data, i, o, base, pos, end);
                    assert(c.closed.contains(y));
                }
            } else {
                assert(new_in(sigs[i], data, pos, end));
                assert(h.found.contains(y));
            }
        }
    }
    // headers
    assert forall|v: u64| #[trigger] next.known.contains(v) <==> exists|j: int|
        0 <= j < sigs.len() && seen(sigs[j], data, end) && v == #[trigger] head(sigs[j], data) as u64 by {
        if h.headers.to_set().contains(v) {
            assert(h.headers.contains(v));
        }
        if st.known.contains(v) {
            let j = choose|j: int| 0 <= j < sigs.len() && seen(sigs[j], data, pos) && v == #[trigger] head(sigs[j], data) as u64;
            assert(seen(sigs[j], data, end));
        }
        if exists|j: int| 0 <= j < sigs.len() && seen(sigs[j], data, end) && v == #[trigger] head(sigs[j], data) as u64 {
            let j = choose|j: int| 0 <= j < sigs.len() && seen(sigs[j], data, end) && v == #[trigger] head(sigs[j], data) as u64;
            if seen(sigs[j], data, pos) {
                assert(st.known.contains(v));
            } else {
                assert(new_in(sigs[j], data, pos, end));
                assert(h.headers.contains(v));
                assert(h.headers.to_set().contains(v));
            }
        }
    }
}

/// The rest of a run from `pos` ends in the state that the whole source
/// determines.
proof fn lemma_chunk_run(
    sigs: Seq<SignatureModel>,
    chunk: int,
    o: int,
    data: Seq<u8>,
    pos: int,
    overlap: Seq<u8>,
    st: ScanModel,
)
    requires
        chunk_free(sigs, data),
        forall|i: int| 0 <= i < sigs.len() ==> #[trigger] sigs[i].header.len() <= o + 1 && sigs[i].footer.len() <= o + 1,
        data.len() <= u64::MAX,
        chunk > 0,
        0 <= o <= chunk,
        0 <= pos <= data.len(),
        overlap.len() <= pos,
        overlap == data.subrange(pos - overlap.len(), pos),
        pos == 0 || pos == data.len() || overlap.len() == o,
        pos == 0 ==> overlap.len() == 0,
        chunk_state(sigs, data, pos, st),
    ensures
        chunk_state(sigs, data, data.len() as int, scan_run(sigs, chunk, o, data, pos, overlap, st)),
    decreases data.len() - pos,
{
    if pos < data.len() {
        let new_bytes = read_range(data, pos, chunk);
        lemma_read_range_len(data, pos, chunk);
        let next_pos = if pos + chunk <= data.len() { pos + chunk } else { data.len() as int };
        let w = overlap + new_bytes;
        let base = saturating_diff(pos, overlap.len() as int);
        assert(w =~= data.subrange(base, next_pos));
        lemma_chunk_step(sigs, data, o, base, pos, next_pos, st);
        let tail = tail_of(new_bytes, o);
        assert(tail =~= data.subrange(next_pos - tail.len(), next_pos));
        lemma_chunk_run(sigs, chunk, o, data, next_pos, tail, window_step(sigs, st, w, base));
    }
}

proof fn lemma_patterns_within_max(sigs: Seq<SignatureModel>, i: int)
    requires
        0 <= i < sigs.len(),
    ensures
        sigs[i].header.len() <= max_pattern_len(sigs),
        sigs[i].footer.len() <= max_pattern_len(sigs),
    decreases sigs.len(),
{
    if i < sigs.len() - 1 {
        lemma_patterns_within_max(sigs.drop_last(), i);
        assert(sigs.drop_last()[i] == sigs[i]);
    }
}

/// Two sequences sorted by start with the same elements, no two of which
/// share a start, are the same.
proof fn lemma_sorted_equal(a: Seq<CarvedFile>, b: Seq<CarvedFile>)
    requires
        sorted_by_start(a),
        sorted_by_start(b),
        a.to_multiset() == b.to_multiset(),
        forall|x: CarvedFile, y: CarvedFile|
            a.contains(x) && a.contains(y) && x.offset_start == y.offset_start ==> x == y,
    ensures
        a == b,
    decreases a.len(),
{
    broadcast use vstd::seq_lib::group_to_multiset_ensures;

    assert(a.len() == a.to_multiset().len());
    assert(b.len() == b.to_multiset().len());
    if a.len() > 0 {
        let x = a.last();
        let y = b.last();
        assert(a.contains(x));
        assert(b.to_multiset().count(x) > 0);
        assert(b.contains(x));
        assert(b.contains(y));
        assert(a.to_multiset().count(y) > 0);
        assert(a.contains(y));
        let k = choose|k: int| 0 <= k < a.len() && a[k] == y;
        let l = choose|l: int| 0 <= l < b.len() && b[l] == x;
        assert(y.offset_start <= x.offset_start);
        assert(x.offset_start <= y.offset_start);
        assert(x == y);
        let a0 = a.drop_last();
        let b0 = b.drop_last();
        assert(a =~= a0.push(x));
        assert(b =~= b0.push(x));
        assert(a0.to_multiset().insert(x) == b0.to_multiset().insert(x));
        assert(a0.to_multiset() =~= b0.to_multiset()) by {
            assert forall|z: CarvedFile| a0.to_multiset().count(z) == b0.to_multiset().count(z) by {
                assert(a0.to_multiset().insert(x).count(z) == b0.to_multiset().insert(x).count(z));
            }
        }
        assert forall|u: CarvedFile, v: CarvedFile|
            a0.contains(u) && a0.contains(v) && u.offset_start == v.offset_start implies u == v by {
            let i = choose|i: int| 0 <= i < a0.len() && a0[i] == u;
            let j = choose|j: int| 0 <= j < a0.len() && a0[j] == v;
            assert(a[i] == u && a[j] == v);
            assert(a.contains(u) && a.contains(v));
        }
        lemma_sorted_equal(a0, b0);
    } else {
        assert(a =~= b);
    }
}

/// The files a scan reports, for signatures of different kinds whose
/// non-empty headers do not begin one another's and each occur at most once
/// in the source, do not depend on the chunk size: any two chunk sizes of at
/// least the overlap (the longest pattern minus one) give the same files.
pub proof fn lemma_scan_independent_of_chunk(sigs: Seq<SignatureModel>, c1: int, c2: int, data: Seq<u8>)
    requires
        data.len() <= u64::MAX,
        chunk_free(sigs, data),
        c1 > 0,
        c2 > 0,
        c1 >= overlap_for(sigs),
        c2 >= overlap_for(sigs),
    ensures
        scan_model(sigs, c1, data) == scan_model(sigs, c2, data),
{
    broadcast use vstd::seq_lib::group_to_multiset_ensures;

    if sigs.len() > 0 {
        let o = overlap_for(sigs);
        assert forall|i: int| 0 <= i < sigs.len() implies #[trigger] sigs[i].header.len() <= o + 1
            && sigs[i].footer.len() <= o + 1 by {
            lemma_patterns_within_max(sigs, i);
            lemma_patterns_within_max(sigs, 0);
            assert(sigs[0].header.len() > 0);
        }
        assert(chunk_state(sigs, data, 0, initial_scan())) by {
            assert forall|i: int| 0 <= i < sigs.len() implies !#[trigger] seen(sigs[i], data, 0) by {
                assert(sigs[i].header.len() > 0);
            }
            assert forall|v: u64| #[trigger] initial_scan().known.contains(v) <==> exists|j: int|
                0 <= j < sigs.len() && seen(sigs[j], data, 0) && v == #[trigger] head(sigs[j], data) as u64 by {
                if exists|j: int| 0 <= j < sigs.len() && seen(sigs[j], data, 0) && v == #[trigger] head(sigs[j], data) as u64 {
                    let j = choose|j: int| 0 <= j < sigs.len() && seen(sigs[j], data, 0) && v == #[trigger] head(sigs[j], data) as u64;
                    assert(!seen(sigs[j], data, 0));
                }
            }
        }
        assert(Seq::<u8>::empty() =~= data.subrange(0, 0));
        lemma_chunk_run(sigs, c1, o, data, 0, Seq::empty(), initial_scan());
        lemma_chunk_run(sigs, c2, o, data, 0, Seq::empty(), initial_scan());
        let r1 = scan_run(sigs, c1, o, data, 0, Seq::empty(), initial_scan()).carved;
        let r2 = scan_run(sigs, c2, o, data, 0, Seq::empty(), initial_scan()).carved;
        let n = data.len() as int;
        r1.lemma_multiset_has_no_duplicates();
        r2.lemma_multiset_has_no_duplicates();
        assert forall|y: CarvedFile| r1.contains(y) <==> r2.contains(y) by {
            assert(r1.contains(y) <==> exists|i: int|
                0 <= i < sigs.len() && seen(sigs[i], data, n) && closes(sigs[i], data, n) && y
                    == #[trigger] file_of(sigs[i], data));
            assert(r2.contains(y) <==> exists|i: int|
                0 <= i < sigs.len() && seen(sigs[i], data, n) && closes(sigs[i], data, n) && y
                    == #[trigger] file_of(sigs[i], data));
        }
        assert(r1.to_multiset() =~= r2.to_multiset()) by {
            assert forall|y: CarvedFile| r1.to_multiset().count(y) == r2.to_multiset().count(y) by {
                if r1.contains(y) {
                    assert(r1.to_multiset().contains(y));
                    assert(r2.to_multiset().contains(y));
                }
            }
        }
        lemma_sort_by_start(r1);
        lemma_sort_by_start(r2);
        let s1 = sort_by_start(r1);
        let s2 = sort_by_start(r2);
        assert forall|x: CarvedFile, y: CarvedFile|
            s1.contains(x) && s1.contains(y) && x.offset_start == y.offset_start implies x == y by {
            assert(s1.to_multiset().count(x) > 0 && s1.to_multiset().count(y) > 0);
            assert(r1.contains(x) && r1.contains(y));
            let i = choose|i: int|
                0 <= i < sigs.len() && seen(sigs[i], data, n) && closes(sigs[i], data, n) && x
                    == #[trigger] file_of(sigs[i], data);
            let j = choose|j: int|
                0 <= j < sigs.len() && seen(sigs[j], data, n) && closes(sigs[j], data, n) && y
                    == #[trigger] file_of(sigs[j], data);
            assert(header_at_most_once(sigs[i], data) && header_at_most_once(sigs[j], data));
            lemma_head(sigs[i], data, n);
            lemma_head(sigs[j], data, n);
            if i != j {
                lemma_heads_differ(sigs, data, i, j, head(sigs[i], data));
            }
        }
        lemma_sorted_equal(s1, s2);
    }
}

} // verus!
