//! The mathematical model of a carving scan: what each window contributes
//! to the list of carved files, and how the windows follow from the source.
use vstd::prelude::*;

use crate::carved_file::CarvedFile;
use crate::matcher::{all_matches, first_match};
use crate::signature::{FileKind, SignatureModel};
use crate::source::read_range;
use crate::window::{saturating_diff, tail_of};

verus! {

/// A file whose header has been found but whose footer has not yet been
/// located: its footer is looked for from `body_abs`, the first byte after
/// its header.
#[derive(Debug, Clone, Copy, PartialEq, Eq, Structural)]
pub struct PendingFile {
    pub kind: FileKind,
    pub start_abs: u64,
    pub body_abs: u64,
}

/// One search cursor per file kind: within a window, footers are consumed in
/// order so that each open file of a kind is matched to its own footer.
#[derive(Debug, Clone, Copy, PartialEq, Eq, Structural)]
pub struct FooterCursors {
    pub jpeg: usize,
    pub png: usize,
    pub pdf: usize,
    pub zip: usize,
}

impl FooterCursors {
    pub open spec fn at(self, kind: FileKind) -> usize {
        match kind {
            FileKind::Jpeg => self.jpeg,
            FileKind::Png => self.png,
            FileKind::Pdf => self.pdf,
            FileKind::Zip => self.zip,
        }
    }

    pub open spec fn with(self, kind: FileKind, v: usize) -> FooterCursors {
        match kind {
            FileKind::Jpeg => FooterCursors { jpeg: v, ..self },
            FileKind::Png => FooterCursors { png: v, ..self },
            FileKind::Pdf => FooterCursors { pdf: v, ..self },
            FileKind::Zip => FooterCursors { zip: v, ..self },
        }
    }

    pub open spec fn zero() -> FooterCursors {
        FooterCursors { jpeg: 0, png: 0, pdf: 0, zip: 0 }
    }

    pub fn start() -> (res: FooterCursors)
        ensures
            res == FooterCursors::zero(),
    {
        FooterCursors { jpeg: 0, png: 0, pdf: 0, zip: 0 }
    }

    pub fn get(&self, kind: FileKind) -> (res: usize)
        ensures
            res == self.at(kind),
    {
        match kind {
            FileKind::Jpeg => self.jpeg,
            FileKind::Png => self.png,
            FileKind::Pdf => self.pdf,
            FileKind::Zip => self.zip,
        }
    }

    pub fn set(&mut self, kind: FileKind, v: usize)
        ensures
            *final(self) == old(self).with(kind, v),
    {
        match kind {
            FileKind::Jpeg => self.jpeg = v,
            FileKind::Png => self.png = v,
            FileKind::Pdf => self.pdf = v,
            FileKind::Zip => self.zip = v,
        }
    }
}

/// The footer of the first registered signature of `kind` (empty if none).
pub open spec fn footer_for(sigs: Seq<SignatureModel>, kind: FileKind) -> Seq<u8>
    decreases sigs.len(),
{
    if sigs.len() == 0 {
        Seq::empty()
    } else if sigs[0].kind == kind {
        sigs[0].footer
    } else {
        footer_for(sigs.drop_first(), kind)
    }
}

/// The longest header or footer among `sigs` (0 when there is none).
pub open spec fn max_pattern_len(sigs: Seq<SignatureModel>) -> nat
    decreases sigs.len(),
{
    if sigs.len() == 0 {
        0
    } else {
        let rest = max_pattern_len(sigs.drop_last());
        let h = sigs.last().header.len();
        let f = sigs.last().footer.len();
        let m = if h >= f { h } else { f };
        if m >= rest { m } else { rest }
    }
}

/// The overlap needed so that no pattern spans two windows unseen:
/// `max_pattern_len - 1` (0 when there is no pattern).
pub open spec fn overlap_for(sigs: Seq<SignatureModel>) -> int {
    saturating_diff(max_pattern_len(sigs) as int, 1)
}

/// State threaded through the closing of pending files in one window.
pub struct CloseAcc {
    pub cursors: FooterCursors,
    pub open: Seq<PendingFile>,
    pub closed: Seq<CarvedFile>,
}

/// Where the footer of `p` is looked for in a window whose first byte is at
/// `base`: from the kind's cursor, and never before the end of its header.
pub open spec fn close_from(cursor: usize, p: PendingFile, base: int) -> int {
    let body = saturating_diff(p.body_abs as int, base);
    if cursor >= body { cursor as int } else { body }
}

/// Tries to close pending file `p` with a footer in window `w` (whose first
/// byte is at absolute offset `base`), searching from [`close_from`].
pub open spec fn close_step(
    sigs: Seq<SignatureModel>,
    w: Seq<u8>,
    base: int,
    acc: CloseAcc,
    p: PendingFile,
) -> CloseAcc {
    let footer = footer_for(sigs, p.kind);
    match first_match(w, footer, close_from(acc.cursors.at(p.kind), p, base)) {
        Some(f) => CloseAcc {
            cursors: acc.cursors.with(p.kind, (f + footer.len()) as usize),
            open: acc.open,
            closed: acc.closed.push(
                CarvedFile {
                    kind: p.kind,
                    offset_start: p.start_abs,
                    offset_end: (base + f + footer.len()) as u64,
                },
            ),
        },
        None => CloseAcc { cursors: acc.cursors, open: acc.open.push(p), closed: acc.closed },
    }
}

/// Closes, in order, every pending file that finds its footer in `w`.
pub open spec fn close_fold(
    sigs: Seq<SignatureModel>,
    w: Seq<u8>,
    base: int,
    pending: Seq<PendingFile>,
) -> CloseAcc
    decreases pending.len(),
{
    if pending.len() == 0 {
        CloseAcc { cursors: FooterCursors::zero(), open: Seq::empty(), closed: Seq::empty() }
    } else {
        close_step(sigs, w, base, close_fold(sigs, w, base, pending.drop_last()), pending.last())
    }
}

/// What a header search contributes: files still open, files carved whole,
/// and the absolute offsets of the headers seen for the first time.
pub struct SearchAcc {
    pub pending: Seq<PendingFile>,
    pub found: Seq<CarvedFile>,
    pub headers: Seq<u64>,
}

pub open spec fn empty_search() -> SearchAcc {
    SearchAcc { pending: Seq::empty(), found: Seq::empty(), headers: Seq::empty() }
}

/// Handles the header of `sig` found at local index `h` of window `w`:
/// skipped if already known, else carved when its footer follows in the same
/// window, else left pending.
pub open spec fn search_step(
    sig: SignatureModel,
    w: Seq<u8>,
    base: int,
    known: Set<u64>,
    acc: SearchAcc,
    h: int,
) -> SearchAcc {
    let abs = (base + h) as u64;
    if known.contains(abs) {
        acc
    } else {
        let headers = acc.headers.push(abs);
        match first_match(w, sig.footer, h + sig.header.len()) {
            Some(f) => SearchAcc {
                pending: acc.pending,
                found: acc.found.push(
                    CarvedFile {
                        kind: sig.kind,
                        offset_start: abs,
                        offset_end: (base + f + sig.footer.len()) as u64,
                    },
                ),
                headers,
            },
            None => SearchAcc {
                pending: acc.pending.push(
                    PendingFile { kind: sig.kind, start_abs: abs, body_abs: (base + h + sig.header.len()) as u64 },
                ),
                found: acc.found,
                headers,
            },
        }
    }
}

pub open spec fn search_fold(
    sig: SignatureModel,
    w: Seq<u8>,
    base: int,
    known: Set<u64>,
    hs: Seq<int>,
) -> SearchAcc
    decreases hs.len(),
{
    if hs.len() == 0 {
        empty_search()
    } else {
        search_step(sig, w, base, known, search_fold(sig, w, base, known, hs.drop_last()), hs.last())
    }
}

/// Every header of `sig` in window `w`, handled in increasing order.
pub open spec fn search_signature_model(
    sig: SignatureModel,
    w: Seq<u8>,
    base: int,
    known: Set<u64>,
) -> SearchAcc {
    if sig.header.len() == 0 {
        empty_search()
    } else {
        search_fold(sig, w, base, known, all_matches(w, sig.header))
    }
}

/// The header searches of all signatures, concatenated in registration order.
pub open spec fn headers_fold(
    sigs: Seq<SignatureModel>,
    w: Seq<u8>,
    base: int,
    known: Set<u64>,
) -> SearchAcc
    decreases sigs.len(),
{
    if sigs.len() == 0 {
        empty_search()
    } else {
        let a = headers_fold(sigs.drop_last(), w, base, known);
        let b = search_signature_model(sigs.last(), w, base, known);
        SearchAcc {
            pending: a.pending + b.pending,
            found: a.found + b.found,
            headers: a.headers + b.headers,
        }
    }
}

/// The scanner's state between windows.
pub struct ScanModel {
    pub pending: Seq<PendingFile>,
    pub carved: Seq<CarvedFile>,
    pub known: Set<u64>,
}

pub open spec fn initial_scan() -> ScanModel {
    ScanModel { pending: Seq::empty(), carved: Seq::empty(), known: Set::empty() }
}

/// One window: close what can be closed, then look for new headers.
pub open spec fn window_step(
    sigs: Seq<SignatureModel>,
    st: ScanModel,
    w: Seq<u8>,
    base: int,
) -> ScanModel {
    let c = close_fold(sigs, w, base, st.pending);
    let h = headers_fold(sigs, w, base, st.known);
    ScanModel {
        pending: c.open + h.pending,
        carved: st.carved + c.closed + h.found,
        known: st.known.union(h.headers.to_set()),
    }
}

/// The rest of a scan: reads chunks of `chunk` bytes from `pos`, forms the
/// windows (carried `overlap` followed by the new chunk) and steps through
/// them.
pub open spec fn scan_run(
    sigs: Seq<SignatureModel>,
    chunk: int,
    o: int,
    data: Seq<u8>,
    pos: int,
    overlap: Seq<u8>,
    st: ScanModel,
) -> ScanModel
    decreases data.len() - pos,
{
    let new_bytes = read_range(data, pos, chunk);
    if pos < 0 || chunk <= 0 || pos >= data.len() {
        st
    } else {
        let w = overlap + new_bytes;
        let base = saturating_diff(pos, overlap.len() as int);
        let next_pos = if pos + chunk <= data.len() { pos + chunk } else { data.len() as int };
        scan_run(sigs, chunk, o, data, next_pos, tail_of(new_bytes, o), window_step(sigs, st, w, base))
    }
}

/// Inserts `x` after every element whose start is `<=` its own.
pub open spec fn insert_by_start(sorted: Seq<CarvedFile>, x: CarvedFile) -> Seq<CarvedFile>
    decreases sorted.len(),
{
    if sorted.len() == 0 {
        seq![x]
    } else if sorted.last().offset_start <= x.offset_start {
        sorted.push(x)
    } else {
        insert_by_start(sorted.drop_last(), x).push(sorted.last())
    }
}

/// Stable sort by starting offset.
pub open spec fn sort_by_start(s: Seq<CarvedFile>) -> Seq<CarvedFile>
    decreases s.len(),
{
    if s.len() == 0 {
        s
    } else {
        insert_by_start(sort_by_start(s.drop_last()), s.last())
    }
}

/// Every file found by scanning `data` with `sigs` in chunks of `chunk`
/// bytes, sorted by starting offset.
pub open spec fn scan_model(sigs: Seq<SignatureModel>, chunk: int, data: Seq<u8>) -> Seq<CarvedFile> {
    if sigs.len() == 0 || chunk <= 0 {
        Seq::empty()
    } else {
        sort_by_start(scan_run(sigs, chunk, overlap_for(sigs), data, 0, Seq::empty(), initial_scan()).carved)
    }
}

/// Ordered by starting offset.
pub open spec fn sorted_by_start(s: Seq<CarvedFile>) -> bool {
    forall|i: int, j: int| 0 <= i < j < s.len() ==> s[i].offset_start <= s[j].offset_start
}

/// Inserting `x` at the position `j` after the last element whose start is
/// `<=` its own is what `insert_by_start` does.
pub proof fn lemma_insert_split(sorted: Seq<CarvedFile>, x: CarvedFile, j: int)
    requires
        0 <= j <= sorted.len(),
        forall|k: int| j <= k < sorted.len() ==> sorted[k].offset_start > x.offset_start,
        j == 0 || sorted[j - 1].offset_start <= x.offset_start,
    ensures
        insert_by_start(sorted, x) == sorted.insert(j, x),
    decreases sorted.len(),
{
    if sorted.len() == 0 {
        assert(sorted.insert(j, x) =~= seq![x]);
    } else if sorted.last().offset_start <= x.offset_start {
        assert(j == sorted.len());
        assert(sorted.insert(j, x) =~= sorted.push(x));
    } else {
        let init = sorted.drop_last();
        lemma_insert_split(init, x, j);
        assert(sorted.insert(j, x) =~= init.insert(j, x).push(sorted.last()));
    }
}

/// `insert_by_start` keeps a sorted sequence sorted and adds exactly `x`.
pub proof fn lemma_insert_by_start(sorted: Seq<CarvedFile>, x: CarvedFile)
    requires
        sorted_by_start(sorted),
    ensures
        sorted_by_start(insert_by_start(sorted, x)),
        insert_by_start(sorted, x).to_multiset() == sorted.to_multiset().insert(x),
        insert_by_start(sorted, x).len() == sorted.len() + 1,
    decreases sorted.len(),
{
    broadcast use vstd::seq_lib::group_to_multiset_ensures;

    if sorted.len() == 0 {
        assert(seq![x] =~= Seq::<CarvedFile>::empty().push(x));
    } else if sorted.last().offset_start <= x.offset_start {
    } else {
        let init = sorted.drop_last();
        let last = sorted.last();
        lemma_insert_by_start(init, x);
        let r = insert_by_start(init, x);
        assert(sorted =~= init.push(last));
        assert forall|i: int, j: int| 0 <= i < j < r.push(last).len() implies r.push(last)[i].offset_start
            <= r.push(last)[j].offset_start by {
            if j == r.len() {
                // every element of r is x or an element of init
                assert(r.to_multiset().count(r[i]) > 0);
                if r[i] != x {
                    assert(init.to_multiset().count(r[i]) > 0);
                    assert(init.contains(r[i]));
                    let k = choose|k: int| 0 <= k < init.len() && init[k] == r[i];
                    assert(sorted[k] == init[k]);
                }
            }
        }
        assert(r.push(last).to_multiset() =~= sorted.to_multiset().insert(x));
    }
}

/// `sort_by_start` sorts and keeps every element, each as often as before.
pub proof fn lemma_sort_by_start(s: Seq<CarvedFile>)
    ensures
        sorted_by_start(sort_by_start(s)),
        sort_by_start(s).to_multiset() == s.to_multiset(),
        sort_by_start(s).len() == s.len(),
    decreases s.len(),
{
    broadcast use vstd::seq_lib::group_to_multiset_ensures;

    if s.len() > 0 {
        lemma_sort_by_start(s.drop_last());
        lemma_insert_by_start(sort_by_start(s.drop_last()), s.last());
        assert(s =~= s.drop_last().push(s.last()));
    }
}

} // verus!
