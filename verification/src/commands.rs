//! The decisions of the command-line tool: which signatures a recovery uses,
//! how much a hex dump reads, and the text its commands print.
use vstd::prelude::*;

use crate::carved_file::{range_size, CarvedFile};
use crate::hexdump::{format_hexdump as render_hexdump, hexdump};
use crate::signature::{kind_extension, kind_extension_upper, kind_name, supported_models, supported_signatures, FileKind, Signature, SignatureModel};
use crate::text::{
    decimal, decimal_string, pad_left, pad_right, push_decimal, push_padded_left, push_padded_right,
    push_repeated, push_str, repeat_char,
};

verus! {

/// Number of bytes the `hexdump` command shows when no length is given:
/// sixteen rows of sixteen bytes.
pub const DEFAULT_HEXDUMP_LENGTH: usize = 256;

/// One call made to a progress reporter, with the text it was given.
pub enum ReportCall {
    SetLength(u64),
    SetMessage(Seq<char>),
    Inc(u64),
    Finish(Seq<char>),
    Abandon(Seq<char>),
}

/// Reports the progress of a long-running command.
///
/// A reporter may keep a record of the calls it received (`received`, oldest
/// first). One that does says so through `records_calls`, and each of its
/// methods then appends its own call to the record. A reporter that keeps no
/// record (the default) is bound by nothing but keeping it that way.
pub trait ProgressReporter {
    /// Whether the reporter keeps `received` up to date.
    open spec fn records_calls(&self) -> bool {
        false
    }

    /// The calls the reporter has received, oldest first.
    open spec fn received(&self) -> Seq<ReportCall> {
        Seq::empty()
    }

    fn set_length(&mut self, total: u64)
        ensures
            final(self).records_calls() == old(self).records_calls(),
            old(self).records_calls() ==> final(self).received() == old(self).received().push(
                ReportCall::SetLength(total),
            ),
    ;

    fn set_message(&mut self, message: &str)
        ensures
            final(self).records_calls() == old(self).records_calls(),
            old(self).records_calls() ==> final(self).received() == old(self).received().push(
                ReportCall::SetMessage(message@),
            ),
    ;

    fn inc(&mut self, delta: u64)
        ensures
            final(self).records_calls() == old(self).records_calls(),
            old(self).records_calls() ==> final(self).received() == old(self).received().push(
                ReportCall::Inc(delta),
            ),
    ;

    fn finish_with_message(&mut self, message: &str)
        ensures
            final(self).records_calls() == old(self).records_calls(),
            old(self).records_calls() ==> final(self).received() == old(self).received().push(
                ReportCall::Finish(message@),
            ),
    ;

    fn abandon(&mut self, message: &str)
        ensures
            final(self).records_calls() == old(self).records_calls(),
            old(self).records_calls() ==> final(self).received() == old(self).received().push(
                ReportCall::Abandon(message@),
            ),
    ;
}

/// A reporter that shows nothing; it only keeps, as ghost state, the calls
/// it received.
pub struct SilentReporter {
    received: Ghost<Seq<ReportCall>>,
}

impl SilentReporter {
    pub fn new() -> (res: Self)
        ensures
            res.records_calls(),
            res.received() == Seq::<ReportCall>::empty(),
    {
        SilentReporter { received: Ghost(Seq::empty()) }
    }
}

impl ProgressReporter for SilentReporter {
    open spec fn records_calls(&self) -> bool {
        true
    }

    closed spec fn received(&self) -> Seq<ReportCall> {
        self.received@
    }

    fn set_length(&mut self, total: u64) {
        self.received = Ghost(self.received@.push(ReportCall::SetLength(total)));
    }

    fn set_message(&mut self, message: &str) {
        self.received = Ghost(self.received@.push(ReportCall::SetMessage(message@)));
    }

    fn inc(&mut self, delta: u64) {
        self.received = Ghost(self.received@.push(ReportCall::Inc(delta)));
    }

    fn finish_with_message(&mut self, message: &str) {
        self.received = Ghost(self.received@.push(ReportCall::Finish(message@)));
    }

    fn abandon(&mut self, message: &str) {
        self.received = Ghost(self.received@.push(ReportCall::Abandon(message@)));
    }
}

/// Arguments of the `devices` command (it takes none).
pub struct DevicesArgs;

/// Lists the physical storage devices of the system.
pub struct DevicesCommand;

impl DevicesCommand {
    pub fn new(_args: DevicesArgs) -> (res: Self) {
        DevicesCommand
    }
}

/// Arguments of the `hexdump` command.
pub struct HexdumpArgs {
    /// Path to the disk image or device to inspect.
    pub source: String,
    /// Byte offset to start reading from.
    pub offset: u64,
    /// Number of bytes to read.
    pub length: usize,
}

/// Why the `hexdump` command cannot read.
#[derive(Debug, Clone, Copy, PartialEq, Eq, Structural)]
pub enum HexdumpError {
    /// The offset lies at or past the end of a source of `file_size` bytes.
    OffsetBeyondEnd { offset: u64, file_size: u64 },
}

/// Displays a raw hex dump of the bytes at a given offset.
pub struct HexdumpCommand {
    args: HexdumpArgs,
}

impl HexdumpCommand {
    pub closed spec fn offset(&self) -> u64 {
        self.args.offset
    }

    pub closed spec fn length(&self) -> usize {
        self.args.length
    }

    pub closed spec fn source(&self) -> Seq<char> {
        self.args.source@
    }

    /// The offset the dump starts at.
    pub fn start_offset(&self) -> (res: u64)
        ensures
            res == self.offset(),
    {
        self.args.offset
    }

    /// The source to dump.
    pub fn source_path(&self) -> (res: &str)
        ensures
            res@ == self.source(),
    {
        self.args.source.as_str()
    }

    pub fn new(args: HexdumpArgs) -> (res: Self)
        ensures
            res.offset() == args.offset,
            res.length() == args.length,
            res.source() == args.source@,
    {
        HexdumpCommand { args }
    }

    /// Formats `buffer` as a hex dump (see [`crate::hexdump::format_hexdump`]).
    pub fn format_hexdump(buffer: &[u8]) -> (res: String)
        ensures
            res@ == hexdump(buffer@),
    {
        render_hexdump(buffer)
    }

    /// How many bytes to read from a source of `file_size` bytes: the
    /// requested length, cut to what lies past the offset; an error when the
    /// offset is at or past the end.
    pub fn read_length(&self, file_size: u64) -> (res: Result<usize, HexdumpError>)
        ensures
            self.offset() >= file_size ==> res == Err::<usize, HexdumpError>(
                HexdumpError::OffsetBeyondEnd { offset: self.offset(), file_size },
            ),
            self.offset() < file_size ==> res == Ok::<usize, HexdumpError>(
                if self.length() <= ((file_size - self.offset()) as usize) {
                    self.length()
                } else {
                    ((file_size - self.offset()) as usize)
                },
            ),
    {
        if self.args.offset >= file_size {
            return Err(HexdumpError::OffsetBeyondEnd { offset: self.args.offset, file_size });
        }
        let readable = (file_size - self.args.offset) as usize;
        if self.args.length <= readable {
            Ok(self.args.length)
        } else {
            Ok(readable)
        }
    }

    /// The line printed above the dump.
    pub fn header_line(&self, length: usize) -> (res: String)
        ensures
            res@ == "Source: "@ + self.source() + "  |  Offset: "@ + decimal(self.offset() as nat)
                + "  |  Length: "@ + decimal(length as nat) + " bytes"@,
    {
        let mut s = String::new();
        push_str(&mut s, "Source: ");
        push_str(&mut s, self.args.source.as_str());
        push_str(&mut s, "  |  Offset: ");
        push_decimal(&mut s, self.args.offset);
        push_str(&mut s, "  |  Length: ");
        push_decimal(&mut s, length as u64);
        push_str(&mut s, " bytes");
        s
    }
}

/// The recovery strategy chosen on the command line.
#[derive(Debug, Clone, Copy, PartialEq, Eq, Structural)]
pub enum StrategyArg {
    /// Signature-based file carver: works on any device.
    Carver,
    /// FAT32-aware recovery: reads deleted directory entries.
    Fat32,
}

/// Arguments of the `recover` command.
pub struct RecoverArgs {
    /// Path to the disk image or device to recover from.
    pub source: String,
    /// Directory where recovered files are saved.
    pub output: String,
    /// File types to recover; every supported type when `None`.
    pub types: Option<Vec<FileKind>>,
    /// Number of bytes read per iteration.
    pub chunk_size: usize,
    pub strategy: StrategyArg,
}

/// Scans a source and extracts the files found to an output directory.
pub struct RecoverCommand {
    args: RecoverArgs,
    reporter: Box<dyn ProgressReporter>,
}

/// The supported signatures whose kind is among `kinds` (all of them when
/// `kinds` is `None`), in their usual order.
pub open spec fn select_signatures(models: Seq<SignatureModel>, kinds: Option<Seq<FileKind>>) -> Seq<
    SignatureModel,
>
    decreases models.len(),
{
    if models.len() == 0 {
        Seq::empty()
    } else {
        let rest = select_signatures(models.drop_last(), kinds);
        let keep = match kinds {
            None => true,
            Some(k) => k.contains(models.last().kind),
        };
        if keep { rest.push(models.last()) } else { rest }
    }
}

/// The models of the signatures `sigs`, in order.
pub open spec fn models_of(sigs: Seq<Signature>) -> Seq<SignatureModel> {
    sigs.map_values(|s: Signature| s@)
}

/// Elements `i` and `j` of `sel` stand in `models` in that order.
pub open spec fn in_order_at(models: Seq<SignatureModel>, sel: Seq<SignatureModel>, i: int, j: int) -> bool {
    exists|a: int, b: int| 0 <= a < b < models.len() && #[trigger] models[a] == sel[i] && #[trigger] models[b] == sel[j]
}

/// Any two elements of `sel` stand in `models` in the same order.
pub open spec fn kept_in_order(models: Seq<SignatureModel>, sel: Seq<SignatureModel>) -> bool {
    forall|i: int, j: int| 0 <= i < j < sel.len() ==> #[trigger] in_order_at(models, sel, i, j)
}

/// Order kept within `models` is kept within `models` extended by `last`.
proof fn lemma_kept_in_order_extend(models: Seq<SignatureModel>, sel: Seq<SignatureModel>, last: SignatureModel)
    requires
        kept_in_order(models, sel),
    ensures
        kept_in_order(models.push(last), sel),
{
    let m2 = models.push(last);
    assert forall|i: int, j: int| 0 <= i < j < sel.len() implies #[trigger] in_order_at(m2, sel, i, j) by {
        assert(in_order_at(models, sel, i, j));
        let (a, b) = choose|a: int, b: int|
            0 <= a < b < models.len() && #[trigger] models[a] == sel[i] && #[trigger] models[b] == sel[j];
        assert(m2[a] == sel[i] && m2[b] == sel[j]);
    }
    assert(kept_in_order(m2, sel));
}

/// Appending `last` to both keeps the order, when `sel` is drawn from `models`.
proof fn lemma_kept_in_order_push(models: Seq<SignatureModel>, sel: Seq<SignatureModel>, last: SignatureModel)
    requires
        kept_in_order(models, sel),
        forall|x: SignatureModel| sel.contains(x) ==> models.contains(x),
    ensures
        kept_in_order(models.push(last), sel.push(last)),
{
    let m2 = models.push(last);
    let s2 = sel.push(last);
    assert forall|i: int, j: int| 0 <= i < j < s2.len() implies #[trigger] in_order_at(m2, s2, i, j) by {
        assert(s2[i] == sel[i]);
        if j < sel.len() {
            assert(s2[j] == sel[j]);
            assert(in_order_at(models, sel, i, j));
            let (a, b) = choose|a: int, b: int|
                0 <= a < b < models.len() && #[trigger] models[a] == sel[i] && #[trigger] models[b] == sel[j];
            assert(m2[a] == s2[i] && m2[b] == s2[j]);
        } else {
            assert(sel.contains(sel[i]));
            let a = choose|a: int| 0 <= a < models.len() && models[a] == sel[i];
            assert(m2[a] == s2[i]);
            assert(m2[models.len() as int] == s2[j]);
        }
    }
}

/// The signatures a recovery searches for: a model is selected exactly when
/// it is one of `models` and its kind was requested (any model when no kind
/// was), wherever that kind stands in the request; and the selected models
/// keep the order they have in `models`.
pub proof fn lemma_select_signatures(models: Seq<SignatureModel>, kinds: Option<Seq<FileKind>>)
    ensures
        forall|m: SignatureModel| #[trigger]
            select_signatures(models, kinds).contains(m) <==> models.contains(m) && (match kinds {
                None => true,
                Some(k) => k.contains(m.kind),
            }),
        kept_in_order(models, select_signatures(models, kinds)),
    decreases models.len(),
{
    if models.len() == 0 {
        assert(select_signatures(models, kinds) =~= Seq::<SignatureModel>::empty());
    } else {
        let rest = models.drop_last();
        let last = models.last();
        lemma_select_signatures(rest, kinds);
        let r = select_signatures(rest, kinds);
        let sel = select_signatures(models, kinds);
        assert(models =~= rest.push(last));
        let wanted = match kinds {
            None => true,
            Some(k) => k.contains(last.kind),
        };
        assert forall|m: SignatureModel| #[trigger] models.contains(m) <==> rest.contains(m) || m == last by {
            if models.contains(m) {
                let i = choose|i: int| 0 <= i < models.len() && models[i] == m;
                if i < rest.len() {
                    assert(rest[i] == m);
                }
            }
            if rest.contains(m) {
                let i = choose|i: int| 0 <= i < rest.len() && rest[i] == m;
                assert(models[i] == m);
            }
            if m == last {
                assert(models[models.len() - 1] == m);
            }
        }
        if wanted {
            assert(sel == r.push(last));
            assert forall|m: SignatureModel| #[trigger] sel.contains(m) <==> r.contains(m) || m == last by {
                if sel.contains(m) {
                    let i = choose|i: int| 0 <= i < sel.len() && sel[i] == m;
                    if i < r.len() {
                        assert(r[i] == m);
                    }
                }
                if r.contains(m) {
                    let i = choose|i: int| 0 <= i < r.len() && r[i] == m;
                    assert(sel[i] == m);
                }
                if m == last {
                    assert(sel[sel.len() - 1] == m);
                }
            }
            assert forall|x: SignatureModel| r.contains(x) implies rest.contains(x) by {}
            lemma_kept_in_order_push(rest, r, last);
            assert(kept_in_order(models, sel));
        } else {
            assert(sel == r);
            lemma_kept_in_order_extend(rest, r, last);
            assert(kept_in_order(models, sel));
        }
    }
}

/// The extensions of `kinds`, joined by `", "`.
pub open spec fn join_extensions(kinds: Seq<FileKind>) -> Seq<char>
    decreases kinds.len(),
{
    if kinds.len() == 0 {
        Seq::empty()
    } else if kinds.len() == 1 {
        kind_extension(kinds[0])
    } else {
        join_extensions(kinds.drop_last()) + ", "@ + kind_extension(kinds.last())
    }
}

pub open spec fn strategy_text(strategy: StrategyArg) -> Seq<char> {
    match strategy {
        StrategyArg::Carver => "carver (signature-based)"@,
        StrategyArg::Fat32 => "fat32 (filesystem-aware)"@,
    }
}

fn contains_kind(kinds: &Vec<FileKind>, kind: FileKind) -> (res: bool)
    ensures
        res == kinds@.contains(kind),
{
    let n = kinds.len();
    let mut i: usize = 0;
    while i < n
        invariant
            n == kinds@.len(),
            i <= n,
            forall|j: int| 0 <= j < i ==> kinds@[j] != kind,
        decreases n - i,
    {
        if kinds[i] == kind {
            assert(kinds@[i as int] == kind);
            return true;
        }
        i = i + 1;
    }
    false
}

impl RecoverCommand {
    pub closed spec fn kinds(&self) -> Option<Seq<FileKind>> {
        match self.args.types {
            Some(v) => Some(v@),
            None => None,
        }
    }

    pub closed spec fn strategy(&self) -> StrategyArg {
        self.args.strategy
    }

    pub closed spec fn source_text(&self) -> Seq<char> {
        self.args.source@
    }

    pub closed spec fn output_text(&self) -> Seq<char> {
        self.args.output@
    }

    pub closed spec fn chunk(&self) -> usize {
        self.args.chunk_size
    }

    /// The progress reporter the command reports to.
    pub closed spec fn progress(&self) -> &Box<dyn ProgressReporter> {
        &self.reporter
    }

    /// Whether the command reports to `r`.
    pub closed spec fn reports_to(&self, r: Box<dyn ProgressReporter>) -> bool {
        *self.progress() == r
    }

    /// Whether the command's reporter keeps a record of its calls.
    pub closed spec fn records(&self) -> bool {
        self.reporter.records_calls()
    }

    /// The calls the command's reporter has received.
    pub closed spec fn reported(&self) -> Seq<ReportCall> {
        self.reporter.received()
    }

    /// A recover command that reports no progress; see [`Self::with_reporter`].
    pub fn new(args: RecoverArgs) -> (res: Self)
        ensures
            res.kinds() == (match args.types {
                Some(v) => Some(v@),
                None => None::<Seq<FileKind>>,
            }),
            res.strategy() == args.strategy,
            res.source_text() == args.source@,
            res.output_text() == args.output@,
            res.chunk() == args.chunk_size,
            res.records(),
            res.reported() == Seq::<ReportCall>::empty(),
    {
        RecoverCommand { args, reporter: Box::new(SilentReporter::new()) }
    }

    /// Replaces the progress reporter.
    pub fn with_reporter(self, reporter: Box<dyn ProgressReporter>) -> (res: Self)
        ensures
            res.kinds() == self.kinds(),
            res.strategy() == self.strategy(),
            res.source_text() == self.source_text(),
            res.output_text() == self.output_text(),
            res.chunk() == self.chunk(),
            res.reports_to(reporter),
    {
        let mut res = self;
        res.reporter = reporter;
        res
    }

    /// The source to recover from.
    pub fn source(&self) -> (res: &str)
        ensures
            res@ == self.source_text(),
    {
        self.args.source.as_str()
    }

    /// The directory the recovered files go to.
    pub fn output(&self) -> (res: &str)
        ensures
            res@ == self.output_text(),
    {
        self.args.output.as_str()
    }

    /// The number of bytes read per iteration.
    pub fn chunk_size(&self) -> (res: usize)
        ensures
            res == self.chunk(),
    {
        self.args.chunk_size
    }

    /// The chosen strategy.
    pub fn strategy_arg(&self) -> (res: StrategyArg)
        ensures
            res == self.strategy(),
    {
        self.args.strategy
    }

    /// The progress reporter, to report through; the command keeps its
    /// arguments and holds the reporter as the caller leaves it.
    pub fn reporter(&mut self) -> (res: &mut Box<dyn ProgressReporter>)
        ensures
            *res == *old(self).progress(),
            *final(self).progress() == *final(res),
            final(self).records() == final(res).records_calls(),
            final(self).reported() == final(res).received(),
            final(self).kinds() == old(self).kinds(),
            final(self).strategy() == old(self).strategy(),
            final(self).source_text() == old(self).source_text(),
            final(self).output_text() == old(self).output_text(),
            final(self).chunk() == old(self).chunk(),
    {
        &mut self.reporter
    }

    /// The signatures to search for: the supported ones whose kind was
    /// requested, or all of them when no type was given.
    pub fn resolve_signatures(&self) -> (res: Vec<Signature>)
        ensures
            res@.len() == select_signatures(supported_models(), self.kinds()).len(),
            forall|i: int| 0 <= i < res@.len() ==> #[trigger] res@[i]@ == select_signatures(supported_models(), self.kinds())[i],
            forall|m: SignatureModel| #[trigger]
                models_of(res@).contains(m) <==> supported_models().contains(m) && (match self.kinds() {
                    None => true,
                    Some(k) => k.contains(m.kind),
                }),
    {
        let all = supported_signatures();
        let ghost models = supported_models();
        let n = all.len();
        let mut res: Vec<Signature> = Vec::new();
        let mut i: usize = 0;
        while i < n
            invariant
                n == models.len(),
                all@.len() == n,
                forall|j: int| 0 <= j < n ==> #[trigger] all@[j]@ == models[j],
                models == supported_models(),
                i <= n,
                res@.len() == select_signatures(models.take(i as int), self.kinds()).len(),
                forall|j: int|
                    0 <= j < res@.len() ==> #[trigger] res@[j]@ == select_signatures(
                        models.take(i as int),
                        self.kinds(),
                    )[j],
            decreases n - i,
        {
            assert(models.take(i + 1).drop_last() =~= models.take(i as int));
            assert(models.take(i + 1).last() == models[i as int]);
            assert(all@[i as int]@ == models[i as int]);
            let keep = match &self.args.types {
                None => true,
                Some(kinds) => contains_kind(kinds, all[i].kind),
            };
            assert(keep == (match self.kinds() {
                None => true,
                Some(k) => k.contains(models[i as int].kind),
            }));
            if keep {
                res.push(all[i].duplicate());
            }
            i = i + 1;
        }
        assert(models.take(n as int) =~= models);
        proof {
            lemma_select_signatures(models, self.kinds());
            assert(models_of(res@) =~= select_signatures(models, self.kinds()));
        }
        res
    }

    /// A description of the chosen strategy.
    pub fn strategy_label(&self) -> (res: &'static str)
        ensures
            res@ == strategy_text(self.strategy()),
    {
        match self.args.strategy {
            StrategyArg::Carver => "carver (signature-based)",
            StrategyArg::Fat32 => "fat32 (filesystem-aware)",
        }
    }

    /// The file types being recovered: `"all types"`, or their extensions
    /// joined by `", "`.
    pub fn type_filter_label(&self) -> (res: String)
        ensures
            res@ == (match self.kinds() {
                None => "all types"@,
                Some(k) => join_extensions(k),
            }),
    {
        match &self.args.types {
            None => String::from_str("all types"),
            Some(kinds) => {
                let mut s = String::new();
                let n = kinds.len();
                let mut i: usize = 0;
                assert(kinds@.take(0) =~= Seq::<FileKind>::empty());
                while i < n
                    invariant
                        n == kinds@.len(),
                        i <= n,
                        s@ == join_extensions(kinds@.take(i as int)),
                    decreases n - i,
                {
                    assert(kinds@.take(i + 1).drop_last() =~= kinds@.take(i as int));
                    assert(kinds@.take(i + 1).last() == kinds@[i as int]);
                    if i > 0 {
                        push_str(&mut s, ", ");
                    } else {
                        assert(kinds@.take(1) =~= seq![kinds@[0]]);
                    }
                    push_str(&mut s, kinds[i].extension());
                    i = i + 1;
                }
                assert(kinds@.take(n as int) =~= kinds@);
                s
            },
        }
    }
}

/// Arguments of the `scan` command.
pub struct ScanArgs {
    /// Path to the disk image or device to scan.
    pub source: String,
    /// Number of bytes read per iteration.
    pub chunk_size: usize,
}

/// Scans a source and lists the recoverable files.
pub struct ScanCommand {
    args: ScanArgs,
}

impl ScanCommand {
    pub closed spec fn chunk(&self) -> usize {
        self.args.chunk_size
    }

    pub closed spec fn source_text(&self) -> Seq<char> {
        self.args.source@
    }

    pub fn new(args: ScanArgs) -> (res: Self)
        ensures
            res.chunk() == args.chunk_size,
            res.source_text() == args.source@,
    {
        ScanCommand { args }
    }

    /// The number of bytes read per iteration.
    pub fn chunk_size(&self) -> (res: usize)
        ensures
            res == self.chunk(),
    {
        self.args.chunk_size
    }

    /// The source to scan.
    pub fn source(&self) -> (res: &str)
        ensures
            res@ == self.source_text(),
    {
        self.args.source.as_str()
    }
}

/// The heading line of the scan listing.
pub fn scan_listing_header() -> (res: String)
    ensures
        res@ == pad_right("#"@, 4) + "  "@ + pad_right("Type"@, 6) + "  Size"@,
{
    let mut s = String::new();
    push_padded_right(&mut s, "#", 4);
    push_str(&mut s, "  ");
    push_padded_right(&mut s, "Type", 6);
    push_str(&mut s, "  Size");
    s
}

/// The line of the scan listing for the `index`-th file: its extension in
/// capitals and its size in bytes.
pub fn scan_listing_row(index: usize, carved: &CarvedFile) -> (res: String)
    ensures
        res@ == pad_right(decimal(index as nat), 4) + "  "@ + pad_right(kind_extension_upper(carved.kind), 6)
            + "  "@ + decimal(range_size(carved.offset_start, carved.offset_end) as nat) + " B"@,
{
    let mut s = String::new();
    let idx = decimal_string(index as u64);
    push_padded_right(&mut s, idx.as_str(), 4);
    push_str(&mut s, "  ");
    push_padded_right(&mut s, carved.kind.extension_upper(), 6);
    push_str(&mut s, "  ");
    push_decimal(&mut s, carved.size());
    push_str(&mut s, " B");
    s
}

/// The heading line of the table of carved files.
pub fn carved_table_header() -> (res: String)
    ensures
        res@ == pad_right("#"@, 4) + "  "@ + pad_right("Type"@, 6) + "  "@ + pad_left("Start (offset)"@, 18)
            + "  "@ + pad_left("End (offset)"@, 14) + "  "@ + pad_left("Size"@, 10),
{
    let mut s = String::new();
    push_padded_right(&mut s, "#", 4);
    push_str(&mut s, "  ");
    push_padded_right(&mut s, "Type", 6);
    push_str(&mut s, "  ");
    push_padded_left(&mut s, "Start (offset)", 18);
    push_str(&mut s, "  ");
    push_padded_left(&mut s, "End (offset)", 14);
    push_str(&mut s, "  ");
    push_padded_left(&mut s, "Size", 10);
    s
}

/// The row of the table of carved files for the `index`-th file.
pub fn carved_table_row(index: usize, carved: &CarvedFile) -> (res: String)
    ensures
        res@ == pad_right(decimal(index as nat), 4) + "  "@ + pad_right(kind_name(carved.kind), 6) + "  "@
            + pad_left(decimal(carved.offset_start as nat), 18) + "  "@ + pad_left(
            decimal(carved.offset_end as nat),
            14,
        ) + "  "@ + pad_left(
            decimal(range_size(carved.offset_start, carved.offset_end) as nat) + " B"@,
            10,
        ),
{
    let mut s = String::new();
    let idx = decimal_string(index as u64);
    push_padded_right(&mut s, idx.as_str(), 4);
    push_str(&mut s, "  ");
    push_padded_right(&mut s, carved.kind.name(), 6);
    push_str(&mut s, "  ");
    let start = decimal_string(carved.offset_start);
    push_padded_left(&mut s, start.as_str(), 18);
    push_str(&mut s, "  ");
    let end = decimal_string(carved.offset_end);
    push_padded_left(&mut s, end.as_str(), 14);
    push_str(&mut s, "  ");
    let mut size = decimal_string(carved.size());
    push_str(&mut size, " B");
    push_padded_left(&mut s, size.as_str(), 10);
    s
}

/// A rule of `width` dashes, drawn above and below a table.
pub fn table_separator(width: usize) -> (res: String)
    ensures
        res@ == repeat_char('-', width as int),
{
    let mut s = String::new();
    push_repeated(&mut s, '-', width);
    assert(s@ =~= repeat_char('-', width as int));
    s
}

/// The closing line of a listing.
pub fn total_line(count: usize) -> (res: String)
    ensures
        res@ == "Total: "@ + decimal(count as nat) + " file(s) found"@,
{
    let mut s = String::new();
    push_str(&mut s, "Total: ");
    push_decimal(&mut s, count as u64);
    push_str(&mut s, " file(s) found");
    s
}

/// The parsed command line: the subcommand to run and whether to log
/// verbosely.
pub struct Cli {
    pub command: Commands,
    pub verbose: bool,
}

/// The subcommands of the tool.
pub enum Commands {
    /// Scan a source and list recoverable files.
    Scan(ScanArgs),
    /// Scan and extract recoverable files to an output directory.
    Recover(RecoverArgs),
    /// Display a raw hex dump of bytes at a given offset.
    Hexdump(HexdumpArgs),
    /// List the physical storage devices.
    Devices(DevicesArgs),
}

/// One step of progress reporting.
#[derive(Debug, PartialEq, Eq)]
pub enum ProgressEvent {
    SetLength(u64),
    SetMessage(String),
    Inc(u64),
    Finish(String),
}

/// The progress reported while saving the files named `names`: the total,
/// then for each file its "Saved" message and one step, then "Done".
pub open spec fn save_report(names: Seq<String>, events: Seq<ProgressEvent>) -> bool {
    &&& events.len() == 2 * names.len() + 2
    &&& events[0] == ProgressEvent::SetLength(names.len() as u64)
    &&& forall|k: int|
        0 <= k < names.len() ==> (#[trigger] events[1 + 2 * k] matches ProgressEvent::SetMessage(m) && m@
            == "Saved "@ + names[k]@)
    &&& forall|k: int| 0 <= k < names.len() ==> #[trigger] events[2 + 2 * k] == ProgressEvent::Inc(1)
    &&& events.last() matches ProgressEvent::Finish(m) && m@ == "Done"@
}

/// The progress events of saving the files named `names`.
pub fn save_report_events(names: &Vec<String>) -> (res: Vec<ProgressEvent>)
    ensures
        save_report(names@, res@),
{
    let n = names.len();
    let mut events: Vec<ProgressEvent> = Vec::new();
    events.push(ProgressEvent::SetLength(n as u64));
    let mut i: usize = 0;
    while i < n
        invariant
            n == names@.len(),
            i <= n,
            events@.len() == 2 * i + 1,
            events@[0] == ProgressEvent::SetLength(n as u64),
            forall|k: int|
                0 <= k < i ==> (#[trigger] events@[1 + 2 * k] matches ProgressEvent::SetMessage(m) && m@
                    == "Saved "@ + names@[k]@),
            forall|k: int| 0 <= k < i ==> #[trigger] events@[2 + 2 * k] == ProgressEvent::Inc(1),
        decreases n - i,
    {
        let mut m = String::new();
        push_str(&mut m, "Saved ");
        push_str(&mut m, names[i].as_str());
        events.push(ProgressEvent::SetMessage(m));
        events.push(ProgressEvent::Inc(1));
        i = i + 1;
    }
    let mut done = String::new();
    push_str(&mut done, "Done");
    events.push(ProgressEvent::Finish(done));
    events
}

/// The reporter call that stands for `e`.
pub open spec fn call_of(e: ProgressEvent) -> ReportCall {
    match e {
        ProgressEvent::SetLength(total) => ReportCall::SetLength(total),
        ProgressEvent::SetMessage(m) => ReportCall::SetMessage(m@),
        ProgressEvent::Inc(delta) => ReportCall::Inc(delta),
        ProgressEvent::Finish(m) => ReportCall::Finish(m@),
    }
}

/// The reporter calls that stand for `events`, in the same order.
pub open spec fn calls_of(events: Seq<ProgressEvent>) -> Seq<ReportCall> {
    events.map_values(|e: ProgressEvent| call_of(e))
}

impl RecoverCommand {
    /// Sends `events`, in order, to the command's reporter.
    pub fn report(&mut self, events: Vec<ProgressEvent>)
        ensures
            final(self).records() == old(self).records(),
            old(self).records() ==> final(self).reported() == old(self).reported() + calls_of(events@),
            final(self).kinds() == old(self).kinds(),
            final(self).strategy() == old(self).strategy(),
            final(self).source_text() == old(self).source_text(),
            final(self).output_text() == old(self).output_text(),
            final(self).chunk() == old(self).chunk(),
    {
        let n = events.len();
        let mut i: usize = 0;
        while i < n
            invariant
                n == events@.len(),
                i <= n,
                self.records() == old(self).records(),
                old(self).records() ==> self.reported() == old(self).reported() + calls_of(
                    events@.subrange(0, i as int),
                ),
                self.kinds() == old(self).kinds(),
                self.strategy() == old(self).strategy(),
                self.source_text() == old(self).source_text(),
                self.output_text() == old(self).output_text(),
                self.chunk() == old(self).chunk(),
            decreases n - i,
        {
            match &events[i] {
                ProgressEvent::SetLength(total) => self.reporter.set_length(*total),
                ProgressEvent::SetMessage(m) => self.reporter.set_message(m.as_str()),
                ProgressEvent::Inc(delta) => self.reporter.inc(*delta),
                ProgressEvent::Finish(m) => self.reporter.finish_with_message(m.as_str()),
            }
            proof {
                assert(calls_of(events@.subrange(0, i + 1)) =~= calls_of(events@.subrange(0, i as int)).push(
                    call_of(events@[i as int]),
                ));
            }
            i = i + 1;
        }
        proof {
            assert(events@.subrange(0, n as int) =~= events@);
        }
    }
}

} // verus!
