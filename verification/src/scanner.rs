use std::collections::HashSet;

use vstd::prelude::*;

use crate::carved_file::CarvedFile;
use crate::constants::DEFAULT_CHUNK_SIZE;
use crate::matcher::{all_matches, first_match, PatternMatcher};
use crate::scan_model::{
    insert_by_start, lemma_insert_split, lemma_sort_by_start, scan_model, scan_run,
    sort_by_start, sorted_by_start, close_fold, close_step, footer_for, headers_fold, initial_scan, max_pattern_len, overlap_for,
    search_fold, search_signature_model, search_step, window_step, close_from, CloseAcc,
    FooterCursors, PendingFile, ScanModel, SearchAcc,
};
use crate::signature::{FileKind, Signature, SignatureModel};
use crate::scan_laws::{all_carved_sound, lemma_scan_sound};
use crate::scan_headers::{
    headers_exclusive, kinds_exclusive, lemma_scan_unique_kind_starts, lemma_scan_unique_starts,
};
use crate::source::{lemma_read_range_len, read_range, ByteSource};
use crate::window::{saturating_diff, tail_of, ScanWindow, WindowSlice};

verus! {

broadcast use vstd::std_specs::hash::group_hash_axioms;

/// Scans a byte source for files by binary signature detection
/// (header + footer patterns).
pub struct Scanner {
    chunk_size: usize,
    signatures: Vec<Signature>,
}

/// What a scan has gathered so far: files still waiting for a footer, files
/// carved, and the absolute offsets of every header already seen.
pub struct ScanState {
    pending: Vec<PendingFile>,
    carved: Vec<CarvedFile>,
    known_headers: HashSet<u64>,
}

impl View for ScanState {
    type V = ScanModel;

    closed spec fn view(&self) -> ScanModel {
        ScanModel { pending: self.pending@, carved: self.carved@, known: self.known_headers@ }
    }
}

impl ScanState {
    /// The state before the first window.
    pub fn new() -> (res: Self)
        ensures
            res@ == initial_scan(),
    {
        ScanState { pending: Vec::new(), carved: Vec::new(), known_headers: HashSet::new() }
    }
}

/// The abstract value of each signature in `sigs`.
pub open spec fn models_of(sigs: Seq<Signature>) -> Seq<SignatureModel> {
    sigs.map_values(|s: Signature| s@)
}

impl Default for Scanner {
    /// A scanner with no signature and the default chunk size.
    fn default() -> (res: Self)
        ensures
            res.sig_models() == Seq::<SignatureModel>::empty(),
            res.chunk() == DEFAULT_CHUNK_SIZE,
    {
        let res = Scanner { chunk_size: DEFAULT_CHUNK_SIZE, signatures: Vec::new() };
        assert(res.sig_models() =~= Seq::<SignatureModel>::empty());
        res
    }
}

impl Scanner {
    /// The registered signatures, in registration order.
    pub closed spec fn sig_models(&self) -> Seq<SignatureModel> {
        models_of(self.signatures@)
    }

    /// Bytes read per iteration.
    pub closed spec fn chunk(&self) -> int {
        self.chunk_size as int
    }

    /// A scanner with no signature and the default chunk size.
    pub fn new() -> (res: Self)
        ensures
            res.sig_models() == Seq::<SignatureModel>::empty(),
            res.chunk() == DEFAULT_CHUNK_SIZE,
    {
        let res = Scanner { chunk_size: DEFAULT_CHUNK_SIZE, signatures: Vec::new() };
        assert(res.sig_models() =~= Seq::<SignatureModel>::empty());
        res
    }

    /// Overrides the number of bytes read from the source per iteration.
    pub fn with_chunk_size(self, chunk_size: usize) -> (res: Self)
        ensures
            res.sig_models() == self.sig_models(),
            res.chunk() == chunk_size,
    {
        Scanner { chunk_size, signatures: self.signatures }
    }

    /// Registers a file signature to be detected during scanning.
    pub fn add_signature(self, signature: &Signature) -> (res: Self)
        ensures
            res.sig_models() == self.sig_models().push(signature@),
            res.chunk() == self.chunk(),
    {
        let mut signatures = self.signatures;
        let ghost old_sigs = signatures@;
        signatures.push(signature.duplicate());
        let res = Scanner { chunk_size: self.chunk_size, signatures };
        assert(models_of(signatures@) =~= models_of(old_sigs).push(signature@));
        res
    }

    /// Index of the first registered signature of `kind`, if any.
    fn footer_index_for(&self, kind: FileKind) -> (res: Option<usize>)
        ensures
            match res {
                Some(k) => k < self.sig_models().len() && self.sig_models()[k as int].footer
                    == footer_for(self.sig_models(), kind),
                None => footer_for(self.sig_models(), kind).len() == 0,
            },
    {
        let n = self.signatures.len();
        let mut i: usize = 0;
        assert(self.sig_models().skip(0) =~= self.sig_models());
        while i < n
            invariant
                n == self.signatures@.len(),
                i <= n,
                footer_for(self.sig_models(), kind) == footer_for(self.sig_models().skip(i as int), kind),
            decreases n - i,
        {
            let ghost rest = self.sig_models().skip(i as int);
            if self.signatures[i].kind == kind {
                return Some(i);
            }
            assert(rest.drop_first() =~= self.sig_models().skip(i + 1));
            i = i + 1;
        }
        None
    }

    /// Attempts to close each pending file by finding its footer in
    /// `window`; returns the files still open and the files closed.
    fn close_pending(&self, pending: Vec<PendingFile>, window: &WindowSlice) -> (res: (
        Vec<PendingFile>,
        Vec<CarvedFile>,
    ))
        requires
            window.base_offset() + window.content().len() <= u64::MAX,
        ensures
            res.0@ == close_fold(self.sig_models(), window.content(), window.base_offset(), pending@).open,
            res.1@ == close_fold(self.sig_models(), window.content(), window.base_offset(), pending@).closed,
    {
        let ghost sigs = self.sig_models();
        let ghost w = window.content();
        let ghost base = window.base_offset();
        let bytes = window.bytes();
        let blen = bytes.len();
        let mut cursors = FooterCursors::start();
        let mut still_open: Vec<PendingFile> = Vec::new();
        let mut closed: Vec<CarvedFile> = Vec::new();
        let n = pending.len();
        let mut i: usize = 0;
        assert(pending@.take(0) =~= Seq::<PendingFile>::empty());
        while i < n
            invariant
                n == pending@.len(),
                i <= n,
                sigs == self.sig_models(),
                w == window.content(),
                base == window.base_offset(),
                bytes@ == w,
                blen == w.len(),
                base + w.len() <= u64::MAX,
                (CloseAcc { cursors, open: still_open@, closed: closed@ }) == close_fold(
                    sigs,
                    w,
                    base,
                    pending@.take(i as int),
                ),
            decreases n - i,
        {
            let p = pending[i];
            let cursor = cursors.get(p.kind);
            let ghost footer = footer_for(sigs, p.kind);
            let base_abs = window.absolute_offset(0);
            let body: u64 = if p.body_abs >= base_abs { p.body_abs - base_abs } else { 0 };
            // a body start past the window leaves nothing to search
            let from: usize = if body > blen as u64 {
                blen
            } else if (cursor as u64) >= body {
                cursor
            } else {
                body as usize
            };
            assert(from as int == close_from(cursor, p, base as int) || (from as int == w.len()
                && close_from(cursor, p, base as int) > w.len()));
            proof {
                crate::matcher::lemma_first_match(w, footer, from as int);
                crate::matcher::lemma_first_match(w, footer, close_from(cursor, p, base as int));
            }
            assert(first_match(w, footer, from as int) == first_match(w, footer, close_from(cursor, p, base as int)));
            let ghost prev = close_fold(sigs, w, base, pending@.take(i as int));
            assert(pending@.take(i + 1).drop_last() =~= pending@.take(i as int));
            assert(pending@.take(i + 1).last() == p);
            match self.footer_index_for(p.kind) {
                Some(k) => {
                    let footer_bytes = self.signatures[k].footer_pattern.as_slice();
                    assert(footer_bytes@ == sigs[k as int].footer);
                    let flen = footer_bytes.len();
                    let fm = PatternMatcher::new(footer_bytes);
                    match fm.find_in(bytes, from) {
                        Some(f) => {
                            proof {
                                crate::matcher::lemma_first_match(w, footer, from as int);
                            }
                            assert(first_match(w, footer, from as int) == Some(f as int));
                            let end = window.absolute_offset(f) + flen as u64;
                            closed.push(
                                CarvedFile { kind: p.kind, offset_start: p.start_abs, offset_end: end },
                            );
                            cursors.set(p.kind, f + flen);
                        },
                        None => {
                            still_open.push(p);
                        },
                    }
                },
                None => {
                    proof {
                        crate::matcher::lemma_first_match(w, footer, from as int);
                    }
                    still_open.push(p);
                },
            }
            i = i + 1;
        }
        assert(pending@.take(n as int) =~= pending@);
        (still_open, closed)
    }

    /// Looks for every header of `signature` in `window`: a header already in
    /// `known` is skipped; one whose footer follows in the same window is
    /// carved; any other is left pending.
    fn search_signature(signature: &Signature, window: &WindowSlice, known: &HashSet<u64>) -> (res: (
        Vec<PendingFile>,
        Vec<CarvedFile>,
        Vec<u64>,
    ))
        requires
            window.base_offset() + window.content().len() <= u64::MAX,
        ensures
            res.0@ == search_signature_model(signature@, window.content(), window.base_offset(), known@).pending,
            res.1@ == search_signature_model(signature@, window.content(), window.base_offset(), known@).found,
            res.2@ == search_signature_model(signature@, window.content(), window.base_offset(), known@).headers,
    {
        let ghost sig = signature@;
        let ghost w = window.content();
        let ghost base = window.base_offset();
        let mut sig_pending: Vec<PendingFile> = Vec::new();
        let mut sig_found: Vec<CarvedFile> = Vec::new();
        let mut sig_headers: Vec<u64> = Vec::new();
        if signature.header_pattern.len() == 0 {
            return (sig_pending, sig_found, sig_headers);
        }
        let bytes = window.bytes();
        let blen = bytes.len();
        let hlen = signature.header_pattern.len();
        let flen = signature.footer_pattern.len();
        let header_matcher = PatternMatcher::new(signature.header_pattern.as_slice());
        let footer_matcher = PatternMatcher::new(signature.footer_pattern.as_slice());
        let hs = header_matcher.find_all_in(bytes);
        let ghost all = all_matches(w, sig.header);
        let m = hs.len();
        let mut k: usize = 0;
        assert(all.take(0) =~= Seq::<int>::empty());
        while k < m
            invariant
                m == hs@.len(),
                k <= m,
                hs@.len() == all.len(),
                forall|j: int| 0 <= j < m ==> hs@[j] as int == #[trigger] all[j],
                forall|j: int|
                    0 <= j < m ==> crate::matcher::matches_at(w, sig.header, #[trigger] hs@[j] as int),
                all == all_matches(w, sig.header),
                sig == signature@,
                hlen == sig.header.len(),
                flen == sig.footer.len(),
                hlen > 0,
                w == window.content(),
                base == window.base_offset(),
                bytes@ == w,
                blen == w.len(),
                footer_matcher@ == sig.footer,
                base + w.len() <= u64::MAX,
                (SearchAcc { pending: sig_pending@, found: sig_found@, headers: sig_headers@ })
                    == search_fold(sig, w, base, known@, all.take(k as int)),
            decreases m - k,
        {
            let h = hs[k];
            let ghost prev = SearchAcc { pending: sig_pending@, found: sig_found@, headers: sig_headers@ };
            assert(crate::matcher::matches_at(w, sig.header, hs@[k as int] as int));
            let abs = window.absolute_offset(h);
            assert(all.take(k + 1).drop_last() =~= all.take(k as int));
            assert(all.take(k + 1).last() == h as int);
            let is_known = known.contains(&abs);
            assert(is_known == known@.contains(abs));
            assert(abs == (base + all.take(k + 1).last()) as u64);
            if !is_known {
                sig_headers.push(abs);
                let from = h + hlen;
                match footer_matcher.find_in(bytes, from) {
                    Some(f) => {
                        proof {
                            crate::matcher::lemma_first_match(w, sig.footer, from as int);
                        }
                        assert(first_match(w, sig.footer, from as int) == Some(f as int));
                        let end = window.absolute_offset(f) + flen as u64;
                        sig_found.push(CarvedFile { kind: signature.kind, offset_start: abs, offset_end: end });
                    },
                    None => {
                        sig_pending.push(PendingFile { kind: signature.kind, start_abs: abs, body_abs: abs + hlen as u64 });
                    },
                }
            }
            assert(sig_headers@ == search_step(sig, w, base, known@, prev, h as int).headers);
            assert(sig_pending@ == search_step(sig, w, base, known@, prev, h as int).pending);
            assert(sig_found@ == search_step(sig, w, base, known@, prev, h as int).found);
            assert(search_fold(sig, w, base, known@, all.take(k + 1)) == search_step(sig, w, base, known@, prev, h as int));
            k = k + 1;
        }
        assert(all.take(m as int) =~= all);
        (sig_pending, sig_found, sig_headers)
    }

    /// Searches `window` for the headers of every registered signature.
    fn find_new_headers(&self, window: &WindowSlice, known: &HashSet<u64>) -> (res: (
        Vec<PendingFile>,
        Vec<CarvedFile>,
        Vec<u64>,
    ))
        requires
            window.base_offset() + window.content().len() <= u64::MAX,
        ensures
            res.0@ == headers_fold(self.sig_models(), window.content(), window.base_offset(), known@).pending,
            res.1@ == headers_fold(self.sig_models(), window.content(), window.base_offset(), known@).found,
            res.2@ == headers_fold(self.sig_models(), window.content(), window.base_offset(), known@).headers,
    {
        let ghost sigs = self.sig_models();
        let ghost w = window.content();
        let ghost base = window.base_offset();
        let mut new_pending: Vec<PendingFile> = Vec::new();
        let mut found: Vec<CarvedFile> = Vec::new();
        let mut new_headers: Vec<u64> = Vec::new();
        let n = self.signatures.len();
        let mut i: usize = 0;
        assert(sigs.take(0) =~= Seq::<SignatureModel>::empty());
        while i < n
            invariant
                n == sigs.len(),
                i <= n,
                sigs == self.sig_models(),
                w == window.content(),
                base == window.base_offset(),
                base + w.len() <= u64::MAX,
                (SearchAcc { pending: new_pending@, found: found@, headers: new_headers@ })
                    == headers_fold(sigs.take(i as int), w, base, known@),
            decreases n - i,
        {
            let sig = &self.signatures[i];
            assert(sig@ == sigs[i as int]);
            assert(sigs.take(i + 1).drop_last() =~= sigs.take(i as int));
            assert(sigs.take(i + 1).last() == sigs[i as int]);
            let (mut sig_pending, mut sig_found, mut sig_headers) = Self::search_signature(sig, window, known);
            new_pending.append(&mut sig_pending);
            found.append(&mut sig_found);
            new_headers.append(&mut sig_headers);
            i = i + 1;
        }
        assert(sigs.take(n as int) =~= sigs);
        (new_pending, found, new_headers)
    }

    /// The minimum overlap that keeps every pattern visible within one window:
    /// `max_pattern_length - 1`.
    fn compute_overlap_size(&self) -> (res: usize)
        ensures
            res == overlap_for(self.sig_models()),
    {
        let ghost sigs = self.sig_models();
        let n = self.signatures.len();
        let mut longest: usize = 0;
        let mut i: usize = 0;
        assert(sigs.take(0) =~= Seq::<SignatureModel>::empty());
        while i < n
            invariant
                n == sigs.len(),
                i <= n,
                sigs == self.sig_models(),
                longest == max_pattern_len(sigs.take(i as int)),
            decreases n - i,
        {
            let h = self.signatures[i].header_pattern.len();
            let f = self.signatures[i].footer_pattern.len();
            assert(sigs.take(i + 1).drop_last() =~= sigs.take(i as int));
            assert(sigs.take(i + 1).last() == sigs[i as int]);
            let m = if h >= f { h } else { f };
            if m >= longest {
                longest = m;
            }
            i = i + 1;
        }
        assert(sigs.take(n as int) =~= sigs);
        longest.saturating_sub(1)
    }

    /// Steps `state` through one window: closes the pending files whose
    /// footer appears in it, then records the new headers it holds.
    pub fn process_window(&self, state: &mut ScanState, window: &WindowSlice)
        requires
            window.base_offset() + window.content().len() <= u64::MAX,
        ensures
            final(state)@ == window_step(self.sig_models(), old(state)@, window.content(), window.base_offset()),
    {
        let ghost sigs = self.sig_models();
        let ghost w = window.content();
        let ghost base = window.base_offset();
        let ghost old_state = state@;
        let mut pending: Vec<PendingFile> = Vec::new();
        std::mem::swap(&mut pending, &mut state.pending);
        let (mut still_open, mut closed) = self.close_pending(pending, window);
        let (mut new_pending, mut found, new_headers) = self.find_new_headers(window, &state.known_headers);
        state.carved.append(&mut closed);
        state.carved.append(&mut found);
        still_open.append(&mut new_pending);
        state.pending = still_open;
        let n = new_headers.len();
        let mut j: usize = 0;
        let ghost old_known = old_state.known;
        let ghost exp_pending = state.pending@;
        let ghost exp_carved = state.carved@;
        assert(exp_pending == window_step(sigs, old_state, w, base).pending);
        assert(exp_carved == window_step(sigs, old_state, w, base).carved);
        assert(new_headers@.take(0).to_set() =~= Set::<u64>::empty());
        while j < n
            invariant
                state.pending@ == exp_pending,
                state.carved@ == exp_carved,
                n == new_headers@.len(),
                j <= n,
                state.known_headers@ == old_known.union(new_headers@.take(j as int).to_set()),
            decreases n - j,
        {
            state.known_headers.insert(new_headers[j]);
            assert(new_headers@.take(j + 1).to_set() =~= new_headers@.take(j as int).to_set().insert(
                new_headers@[j as int],
            )) by {
                assert(new_headers@.take(j + 1) =~= new_headers@.take(j as int) + seq![new_headers@[j as int]]);
                Seq::<u64>::lemma_to_set_insert_commutes(new_headers@.take(j as int), new_headers@[j as int]);
            }
            j = j + 1;
        }
        assert(new_headers@.take(n as int) =~= new_headers@);
        assert(state.known_headers@ =~= old_known.union(new_headers@.to_set()));
    }

    /// The number of bytes read per iteration.
    pub fn chunk_size(&self) -> (res: usize)
        ensures
            res == self.chunk(),
    {
        self.chunk_size
    }

    /// Whether a scan finds nothing whatever the source: no signature is
    /// registered, or the chunk size is 0.
    pub fn finds_nothing(&self) -> (res: bool)
        ensures
            res == (self.sig_models().len() == 0 || self.chunk() == 0),
    {
        self.signatures.len() == 0 || self.chunk_size == 0
    }

    /// The window a scan reads its source through: chunks of the scanner's
    /// size, carrying the longest pattern's length minus one between them.
    pub fn start_window(&self) -> (res: ScanWindow)
        ensures
            res.wf(),
            res.overlap_len_limit() == overlap_for(self.sig_models()),
            res.chunk_len() == self.chunk(),
            res.carried() == Seq::<u8>::empty(),
            res.consumed() == 0,
    {
        ScanWindow::new(self.compute_overlap_size(), self.chunk_size)
    }

    /// The files carved so far, sorted by starting offset (ties keep their
    /// order of discovery).
    pub fn finish(&self, state: ScanState) -> (res: Vec<CarvedFile>)
        ensures
            res@ == sort_by_start(state@.carved),
    {
        sort_carved(state.carved)
    }

    /// Scans `source` from the beginning and returns every detected file,
    /// sorted by its starting offset.
    pub fn scan(&self, source: &mut ByteSource) -> (res: Vec<CarvedFile>)
        ensures
            res@ == scan_model(self.sig_models(), self.chunk(), old(source).content()),
            sorted_by_start(res@),
            all_carved_sound(self.sig_models(), old(source).content(), res@),
            headers_exclusive(self.sig_models()) ==> forall|i: int, j: int|
                0 <= i < j < res@.len() ==> res@[i].offset_start < res@[j].offset_start,
            kinds_exclusive(self.sig_models()) ==> forall|i: int, j: int|
                0 <= i < j < res@.len() ==> !(res@[i].kind == res@[j].kind && res@[i].offset_start
                    == res@[j].offset_start),
            final(source).content() == old(source).content(),
    {
        let ghost sigs = self.sig_models();
        let ghost data = source.content();
        let data_len = source.len();
        proof {
            assert(data.len() <= usize::MAX);
            assert(usize::MAX <= u64::MAX);
            lemma_scan_sound(sigs, self.chunk(), data);
            if headers_exclusive(sigs) {
                lemma_scan_unique_starts(sigs, self.chunk(), data);
            }
            if kinds_exclusive(sigs) {
                lemma_scan_unique_kind_starts(sigs, self.chunk(), data);
            }
            lemma_sort_by_start(
                scan_run(sigs, self.chunk(), overlap_for(sigs), data, 0, Seq::empty(), initial_scan()).carved,
            );
        }
        if self.signatures.len() == 0 || self.chunk_size == 0 {
            return Vec::new();
        }
        source.seek(0);
        let overlap_size = self.compute_overlap_size();
        let mut scan_window = ScanWindow::new(overlap_size, self.chunk_size);
        let mut state = ScanState::new();
        let ghost o = overlap_for(sigs);
        let ghost full = scan_run(sigs, self.chunk(), o, data, 0, Seq::empty(), initial_scan());
        loop
            invariant
                sigs == self.sig_models(),
                sigs.len() > 0,
                self.chunk() > 0,
                data_len == data.len(),
                source.content() == data,
                0 <= source.pos() <= data.len(),
                scan_window.consumed() == source.pos(),
                scan_window.wf(),
                scan_window.chunk_len() == self.chunk(),
                scan_window.overlap_len_limit() == o,
                o == overlap_for(sigs),
                full == scan_run(sigs, self.chunk(), o, data, 0, Seq::empty(), initial_scan()),
                full == scan_run(sigs, self.chunk(), o, data, source.pos(), scan_window.carried(), state@),
            ensures
                full == state@,
                source.content() == data,
            decreases data.len() - source.pos(),
        {
            let ghost pos = source.pos();
            let ghost carried = scan_window.carried();
            let ghost new_bytes = read_range(data, pos, self.chunk());
            proof {
                lemma_read_range_len(data, pos, self.chunk());
                scan_window.lemma_wf();
            }
            match scan_window.next(source) {
                None => {
                    break;
                },
                Some(window) => {
                    assert(window.content() == carried + new_bytes);
                    assert(carried.len() <= pos);
                    assert(pos + new_bytes.len() <= data.len());
                    assert(data_len <= usize::MAX);
                    assert(usize::MAX <= u64::MAX);
                    assert(pos < data.len());
                    self.process_window(&mut state, &window);
                },
            }
        }
        self.finish(state)
    }
}

/// Stable insertion sort by starting offset.
fn sort_carved(items: Vec<CarvedFile>) -> (res: Vec<CarvedFile>)
    ensures
        res@ == sort_by_start(items@),
{
    let mut sorted: Vec<CarvedFile> = Vec::new();
    let n = items.len();
    let mut i: usize = 0;
    assert(items@.take(0) =~= Seq::<CarvedFile>::empty());
    while i < n
        invariant
            n == items@.len(),
            i <= n,
            sorted@ == sort_by_start(items@.take(i as int)),
            sorted@.len() == i,
        decreases n - i,
    {
        let x = items[i];
        let mut j = sorted.len();
        while j > 0 && sorted[j - 1].offset_start > x.offset_start
            invariant
                j <= sorted@.len(),
                forall|k: int| j <= k < sorted@.len() ==> sorted@[k].offset_start > x.offset_start,
            decreases j,
        {
            j = j - 1;
        }
        proof {
            lemma_insert_split(sorted@, x, j as int);
            assert(items@.take(i + 1).drop_last() =~= items@.take(i as int));
            assert(items@.take(i + 1).last() == x);
            lemma_sort_by_start(items@.take(i as int));
        }
        sorted.insert(j, x);
        i = i + 1;
    }
    assert(items@.take(n as int) =~= items@);
    sorted
}

} // verus!
