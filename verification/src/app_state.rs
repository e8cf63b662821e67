//! The state of the desktop interface and how each user action or finished
//! background job changes it. Rendering, the background jobs themselves and
//! the recovered files' bytes stay with the interface; this module decides.
use std::collections::HashSet;

use vstd::prelude::*;

use crate::commands::StrategyArg;
use crate::device::StorageDevice;
use crate::locale::{deselect_all_text, export_success_text, no_source_text, select_all_text, strings_of, Locale, Strings};
use crate::notification::{Notification, NotificationKind, INFO_TTL_MS, SUCCESS_TTL_MS};
use crate::text::{decimal, push_str, trim_str, trimmed};

verus! {

broadcast use vstd::std_specs::hash::group_hash_axioms;

/// The screens of the interface.
#[derive(Debug, Clone, Copy, PartialEq, Eq, Structural)]
pub enum Screen {
    Devices,
    Scan,
    Results,
}

/// How a source is searched for files.
#[derive(Debug, Clone, Copy, PartialEq, Eq, Structural)]
pub enum StrategyKind {
    Carver,
    Fat32,
}

/// The strategy's name in the results summary.
pub open spec fn strategy_short(s: StrategyKind) -> Seq<char> {
    match s {
        StrategyKind::Carver => "carver"@,
        StrategyKind::Fat32 => "fat32"@,
    }
}

impl From<StrategyArg> for StrategyKind {
    fn from(arg: StrategyArg) -> (res: StrategyKind) {
        match arg {
            StrategyArg::Carver => StrategyKind::Carver,
            StrategyArg::Fat32 => StrategyKind::Fat32,
        }
    }
}

impl vstd::std_specs::convert::FromSpecImpl<StrategyArg> for StrategyKind {
    open spec fn obeys_from_spec() -> bool {
        true
    }

    open spec fn from_spec(arg: StrategyArg) -> StrategyKind {
        match arg {
            StrategyArg::Carver => StrategyKind::Carver,
            StrategyArg::Fat32 => StrategyKind::Fat32,
        }
    }
}

/// State of the export operation.
#[derive(Debug, Clone, Copy, PartialEq, Eq, Structural)]
pub enum ExportState {
    Idle,
    Picking,
    Exporting,
}

/// Everything that can change the interface's state: user actions and the
/// results of background jobs.
#[derive(Debug)]
pub enum Message {
    NavigateTo(Screen),
    LanguageChanged(Locale),
    DetectDevicesPressed,
    DevicesDetected(Result<Vec<StorageDevice>, String>),
    /// The path of the chosen device.
    DeviceSelected(String),
    SourcePathChanged(String),
    StrategyChanged(StrategyKind),
    ScanPressed,
    /// How many files the scan recovered, or why it failed.
    ScanCompleted(Result<usize, String>),
    FileSelected(usize),
    FileToggled(usize),
    ToggleAll,
    ExportPressed,
    /// The chosen output folder, if any.
    FolderPicked(Option<String>),
    ExportCompleted(usize),
    ExportFailed(String),
    ToggleSidebar,
    ToggleConsole,
    LogDrainTick,
    DismissNotification(u64),
}

/// The work the interface performs after an update.
#[derive(Debug)]
pub enum Effect {
    Nothing,
    /// List the storage devices, then report `DevicesDetected`.
    DetectDevices,
    /// Scan `source_path`, then report `ScanCompleted`.
    RunScan { source_path: String, strategy: StrategyKind },
    /// Open the folder picker, then report `FolderPicked`.
    PickFolder,
    /// Write the recovered files at `selected` (increasing indices) into
    /// `output_dir`, then report `ExportCompleted` or `ExportFailed`.
    RunExport { selected: Vec<usize>, output_dir: String },
    /// Show the preview of file `index`.
    ShowPreview(usize),
    /// Drop the preview shown, the files having changed.
    ClearPreview,
    /// Move the captured log lines into the console.
    DrainLogs,
}

/// The state of the interface as the contracts see it.
pub struct AppView {
    pub screen: Screen,
    pub source_path: Seq<char>,
    pub strategy: StrategyKind,
    pub file_count: usize,
    pub selected_file: Option<usize>,
    pub selected: Set<usize>,
    pub scanning: bool,
    pub export_state: ExportState,
    pub devices: Seq<StorageDevice>,
    pub detecting_devices: bool,
    pub locale: Locale,
    pub sidebar_expanded: bool,
    pub console_open: bool,
    pub next_id: u64,
    /// The notifications on screen, oldest first.
    pub notifications: Seq<Notification>,
}

/// The complete state of the interface, but for the recovered files
/// themselves, of which it knows how many there are.
pub struct App {
    screen: Screen,
    source_path: String,
    strategy: StrategyKind,
    file_count: usize,
    selected_file: Option<usize>,
    selected_files: HashSet<usize>,
    scanning: bool,
    export_state: ExportState,
    devices: Vec<StorageDevice>,
    detecting_devices: bool,
    locale: Locale,
    sidebar_expanded: bool,
    console_open: bool,
    notifications: Vec<Notification>,
    next_notification_id: u64,
}

impl View for App {
    type V = AppView;

    closed spec fn view(&self) -> AppView {
        AppView {
            screen: self.screen,
            source_path: self.source_path@,
            strategy: self.strategy,
            file_count: self.file_count,
            selected_file: self.selected_file,
            selected: self.selected_files@,
            scanning: self.scanning,
            export_state: self.export_state,
            devices: self.devices@,
            detecting_devices: self.detecting_devices,
            locale: self.locale,
            sidebar_expanded: self.sidebar_expanded,
            console_open: self.console_open,
            next_id: self.next_notification_id,
            notifications: self.notifications@,
        }
    }
}

/// `s` with `i` added if it was missing and removed if it was there.
pub open spec fn toggled(s: Set<usize>, i: usize) -> Set<usize> {
    if s.contains(i) {
        s.remove(i)
    } else {
        s.insert(i)
    }
}

/// The indices `0..n`.
pub open spec fn all_indices(n: usize) -> Set<usize> {
    Set::new(|i: usize| i < n)
}

/// The indices below `n` that are in `s`, in increasing order.
pub open spec fn selected_below(s: Set<usize>, n: int) -> Seq<usize> {
    Seq::new(n as nat, |i: int| i as usize).filter(|i: usize| s.contains(i))
}

/// How long a notification of `kind` lives: failures stay until dismissed,
/// the rest fade.
pub open spec fn ttl_for(kind: NotificationKind) -> Option<u64> {
    match kind {
        NotificationKind::Success => Some(SUCCESS_TTL_MS),
        NotificationKind::Info => Some(INFO_TTL_MS),
        _ => None,
    }
}

/// The notification that message `m` raises in state `v`, by kind and text:
/// a failed device listing or scan shows its error; a scan asked for without
/// a source shows the no-source notice of the current language; a closed
/// folder picker an (empty) information; a finished export the success
/// notice; a failed export its error after a cross.
pub open spec fn notice_of(v: AppView, m: Message) -> Option<(NotificationKind, Seq<char>)> {
    match m {
        Message::DevicesDetected(Err(err)) => Some((NotificationKind::Error, err@)),
        Message::ScanPressed => if trimmed(v.source_path).len() == 0 {
            Some((NotificationKind::Error, no_source_text(v.locale)))
        } else {
            None
        },
        Message::ScanCompleted(Err(err)) => Some((NotificationKind::Error, err@)),
        Message::FolderPicked(None) => Some((NotificationKind::Info, Seq::empty())),
        Message::ExportCompleted(n) => Some((NotificationKind::Success, export_success_text(v.locale, n as nat))),
        Message::ExportFailed(err) => Some((NotificationKind::Error, "✗ "@ + err@)),
        _ => None,
    }
}

/// Whether a message raises a notification, and so allocates its id.
pub open spec fn notifies(v: AppView, m: Message) -> bool {
    notice_of(v, m) is Some
}

/// `after` is `before` with notification `id` of `kind` showing `text`
/// added at the end.
pub open spec fn raised(before: Seq<Notification>, after: Seq<Notification>, id: u64, kind: NotificationKind, text: Seq<char>) -> bool {
    &&& after.len() == before.len() + 1
    &&& after.drop_last() == before
    &&& after.last().id == id
    &&& after.last().kind == kind
    &&& after.last().message@ == text
    &&& after.last().ttl_ms == ttl_for(kind)
}

/// The state after message `m`, but for the notification id, which
/// [`notifies`] says when it advances, and the notifications on screen, of
/// which [`shown_after`] speaks.
pub open spec fn app_after(v: AppView, m: Message) -> AppView {
    match m {
        Message::NavigateTo(s) => AppView { screen: s, ..v },
        Message::LanguageChanged(l) => AppView { locale: l, ..v },
        Message::DetectDevicesPressed => AppView { detecting_devices: true, ..v },
        Message::DevicesDetected(r) => match r {
            Ok(d) => AppView { detecting_devices: false, devices: d@, ..v },
            Err(_) => AppView { detecting_devices: false, ..v },
        },
        Message::DeviceSelected(p) => AppView { source_path: p@, screen: Screen::Scan, ..v },
        Message::SourcePathChanged(p) => AppView { source_path: p@, ..v },
        Message::StrategyChanged(s) => AppView { strategy: s, ..v },
        Message::ScanPressed => if trimmed(v.source_path).len() == 0 {
            v
        } else {
            AppView { scanning: true, ..v }
        },
        Message::ScanCompleted(r) => match r {
            Ok(n) => AppView {
                scanning: false,
                file_count: n,
                selected_file: None,
                selected: Set::empty(),
                export_state: ExportState::Idle,
                screen: Screen::Results,
                ..v
            },
            Err(_) => AppView { scanning: false, ..v },
        },
        Message::FileSelected(i) => AppView { selected_file: Some(i), ..v },
        Message::FileToggled(i) => AppView { selected: toggled(v.selected, i), ..v },
        Message::ToggleAll => if v.selected.len() == v.file_count {
            AppView { selected: Set::empty(), ..v }
        } else {
            AppView { selected: all_indices(v.file_count), ..v }
        },
        Message::ExportPressed => AppView { export_state: ExportState::Picking, ..v },
        Message::FolderPicked(p) => match p {
            Some(_) => AppView { export_state: ExportState::Exporting, ..v },
            None => AppView { export_state: ExportState::Idle, ..v },
        },
        Message::ExportCompleted(_) => AppView { export_state: ExportState::Idle, selected: Set::empty(), ..v },
        Message::ExportFailed(_) => AppView { export_state: ExportState::Idle, ..v },
        Message::ToggleSidebar => AppView { sidebar_expanded: !v.sidebar_expanded, ..v },
        Message::ToggleConsole => AppView { console_open: !v.console_open, ..v },
        Message::LogDrainTick => v,
        Message::DismissNotification(_) => v,
    }
}

/// The work that follows message `m` in state `v`.
pub open spec fn effect_of(v: AppView, m: Message, e: Effect) -> bool {
    match m {
        Message::DetectDevicesPressed => e is DetectDevices,
        Message::ScanPressed => if trimmed(v.source_path).len() == 0 {
            e is Nothing
        } else {
            e matches Effect::RunScan { source_path, strategy } && source_path@ == v.source_path
                && strategy == v.strategy
        },
        Message::ScanCompleted(Ok(_)) => e is ClearPreview,
        Message::FileSelected(i) => e == Effect::ShowPreview(i),
        Message::ExportPressed => e is PickFolder,
        Message::FolderPicked(Some(p)) => e matches Effect::RunExport { selected, output_dir }
            && selected@ == selected_below(v.selected, v.file_count as int) && output_dir == p,
        Message::LogDrainTick => e is DrainLogs,
        _ => e is Nothing,
    }
}

/// Keeps the notifications whose id is not `id`.
pub open spec fn other_than(id: u64) -> spec_fn(Notification) -> bool {
    |n: Notification| n.id != id
}

/// The elements of `s` whose flag is set, in order.
pub open spec fn pick(s: Seq<Notification>, flags: Seq<bool>) -> Seq<Notification>
    decreases s.len(),
{
    if s.len() == 0 {
        Seq::empty()
    } else {
        let rest = pick(s.drop_last(), flags.drop_last());
        if flags.last() {
            rest.push(s.last())
        } else {
            rest
        }
    }
}

/// `after` is `before` with some notifications removed: none of them one
/// that lives until dismissed, and every one whose time to live is 0.
pub open spec fn drops_only_fading(before: Seq<Notification>, after: Seq<Notification>) -> bool {
    exists|flags: Seq<bool>|
        flags.len() == before.len() && #[trigger] pick(before, flags) == after && (forall|i: int|
            0 <= i < before.len() && before[i].ttl_ms is None ==> flags[i]) && (forall|i: int|
            0 <= i < before.len() && before[i].ttl_ms == Some(0u64) ==> !flags[i])
}

/// What happens to the notifications on screen after message `m` in state
/// `v`: a dismissal removes those with its id, the log tick drops faded
/// ones, a message with a [`notice_of`] adds that notification with the next
/// id, and any other leaves them as they are.
pub open spec fn shown_after(v: AppView, m: Message, after: Seq<Notification>) -> bool {
    match m {
        Message::DismissNotification(id) => after == v.notifications.filter(other_than(id)),
        Message::LogDrainTick => drops_only_fading(v.notifications, after),
        _ => match notice_of(v, m) {
            Some((kind, text)) => raised(v.notifications, after, v.next_id, kind, text),
            None => after == v.notifications,
        },
    }
}

impl App {
    /// The starting state: the scan screen, no source, the carver strategy,
    /// nothing found, selected or shown, in the language `locale`.
    pub fn new(locale: Locale) -> (res: Self)
        ensures
            res@ == (AppView {
                screen: Screen::Scan,
                source_path: Seq::empty(),
                strategy: StrategyKind::Carver,
                file_count: 0,
                selected_file: None,
                selected: Set::empty(),
                scanning: false,
                export_state: ExportState::Idle,
                devices: Seq::empty(),
                detecting_devices: false,
                locale,
                sidebar_expanded: false,
                console_open: false,
                next_id: 0,
                notifications: Seq::empty(),
            }),
    {
        App {
            screen: Screen::Scan,
            source_path: String::new(),
            strategy: StrategyKind::Carver,
            file_count: 0,
            selected_file: None,
            selected_files: HashSet::new(),
            scanning: false,
            export_state: ExportState::Idle,
            devices: Vec::new(),
            detecting_devices: false,
            locale,
            sidebar_expanded: false,
            console_open: false,
            notifications: Vec::new(),
            next_notification_id: 0,
        }
    }

    /// A fresh notification id.
    fn next_id(&mut self) -> (id: u64)
        requires
            old(self)@.next_id < u64::MAX,
        ensures
            id == old(self)@.next_id,
            final(self)@ == (AppView { next_id: (id + 1) as u64, ..old(self)@ }),
    {
        let id = self.next_notification_id;
        self.next_notification_id = id + 1;
        id
    }

    /// Shows a new notification of `kind` with `message`, under the next id.
    fn raise(&mut self, kind: NotificationKind, message: String)
        requires
            old(self)@.next_id < u64::MAX,
            kind != NotificationKind::Warning,
        ensures
            final(self)@ == (AppView {
                next_id: (old(self)@.next_id + 1) as u64,
                notifications: final(self)@.notifications,
                ..old(self)@
            }),
            raised(old(self)@.notifications, final(self)@.notifications, old(self)@.next_id, kind, message@),
    {
        let id = self.next_id();
        let n = match kind {
            NotificationKind::Success => Notification::success(id, message),
            NotificationKind::Info => Notification::info(id, message),
            _ => Notification::error(id, message),
        };
        let ghost before = self.notifications@;
        self.push_notification(n);
        assert(self.notifications@.drop_last() =~= before);
    }

    /// Adds `n` to the notifications on screen.
    pub fn push_notification(&mut self, n: Notification)
        ensures
            final(self)@ == (AppView { notifications: old(self)@.notifications.push(n), ..old(self)@ }),
    {
        self.notifications.push(n);
    }

    /// Removes the notifications whose id is `id`.
    fn dismiss(&mut self, id: u64)
        ensures
            final(self)@ == (AppView { notifications: old(self)@.notifications.filter(other_than(id)), ..old(self)@ }),
    {
        let mut rest: Vec<Notification> = Vec::new();
        std::mem::swap(&mut rest, &mut self.notifications);
        let ghost all = rest@;
        let mut kept: Vec<Notification> = Vec::new();
        let n = rest.len();
        let mut i: usize = 0;
        assert(all.take(0).filter(other_than(id)) =~= Seq::<Notification>::empty()) by {
            reveal(Seq::filter);
        }
        while i < n
            invariant
                n == all.len(),
                i <= n,
                rest@ == all.skip(i as int),
                kept@ == all.take(i as int).filter(other_than(id)),
            decreases n - i,
        {
            let x = rest.remove(0);
            assert(x == all[i as int]);
            assert(rest@ =~= all.skip(i + 1));
            proof {
                reveal(Seq::filter);
                assert(all.take(i + 1).drop_last() =~= all.take(i as int));
                assert(all.take(i + 1).last() == x);
            }
            if x.id != id {
                kept.push(x);
            }
            i = i + 1;
        }
        assert(all.take(n as int) =~= all);
        self.notifications = kept;
    }

    /// Removes the notifications whose time to live has passed.
    fn drop_expired(&mut self)
        ensures
            final(self)@ == (AppView { notifications: final(self)@.notifications, ..old(self)@ }),
            drops_only_fading(old(self)@.notifications, final(self)@.notifications),
    {
        let mut rest: Vec<Notification> = Vec::new();
        std::mem::swap(&mut rest, &mut self.notifications);
        let ghost all = rest@;
        let ghost mut flags: Seq<bool> = Seq::empty();
        let mut kept: Vec<Notification> = Vec::new();
        let n = rest.len();
        let mut i: usize = 0;
        assert(all.take(0) =~= Seq::<Notification>::empty());
        while i < n
            invariant
                n == all.len(),
                i <= n,
                rest@ == all.skip(i as int),
                flags.len() == i,
                kept@ == pick(all.take(i as int), flags),
                forall|k: int| 0 <= k < i && all[k].ttl_ms is None ==> flags[k],
                forall|k: int| 0 <= k < i && all[k].ttl_ms == Some(0u64) ==> !flags[k],
            decreases n - i,
        {
            let x = rest.remove(0);
            assert(x == all[i as int]);
            assert(rest@ =~= all.skip(i + 1));
            let expired = x.is_expired();
            proof {
                assert(all.take(i + 1).drop_last() =~= all.take(i as int));
                assert(flags.push(!expired).drop_last() =~= flags);
                flags = flags.push(!expired);
            }
            if !expired {
                kept.push(x);
            }
            i = i + 1;
        }
        assert(all.take(n as int) =~= all);
        self.notifications = kept;
    }

    /// The indices `0..file_count`.
    fn every_index(n: usize) -> (res: HashSet<usize>)
        ensures
            res@ == all_indices(n),
    {
        let mut all: HashSet<usize> = HashSet::new();
        let mut i: usize = 0;
        while i < n
            invariant
                i <= n,
                all@ == Set::new(|j: usize| j < i),
            decreases n - i,
        {
            all.insert(i);
            assert(all@ =~= Set::new(|j: usize| j < i + 1));
            i = i + 1;
        }
        assert(all@ =~= all_indices(n));
        all
    }

    /// The selected indices below `file_count`, in increasing order.
    fn selected_list(&self) -> (res: Vec<usize>)
        ensures
            res@ == selected_below(self.selected_files@, self.file_count as int),
    {
        let n = self.file_count;
        let mut sel: Vec<usize> = Vec::new();
        let mut i: usize = 0;
        assert(selected_below(self.selected_files@, 0) =~= Seq::<usize>::empty()) by {
            reveal(Seq::filter);
        }
        while i < n
            invariant
                n == self.file_count,
                i <= n,
                sel@ == selected_below(self.selected_files@, i as int),
            decreases n - i,
        {
            proof {
                reveal(Seq::filter);
                let f = |k: int| k as usize;
                let p = |k: usize| self.selected_files@.contains(k);
                let longer = Seq::new((i + 1) as nat, f);
                assert(longer.drop_last() =~= Seq::new(i as nat, f));
                assert(longer.last() == i);
                assert(longer.filter(p) == if p(i) {
                    Seq::new(i as nat, f).filter(p).push(i)
                } else {
                    Seq::new(i as nat, f).filter(p)
                });
            }
            if self.selected_files.contains(&i) {
                sel.push(i);
            }
            i = i + 1;
        }
        sel
    }

    /// Applies `message` to the state and returns the work that follows.
    #[verifier::rlimit(60)]
    #[verifier::spinoff_prover]
    pub fn update(&mut self, message: Message) -> (effect: Effect)
        requires
            notifies(old(self)@, message) ==> old(self)@.next_id < u64::MAX,
        ensures
            final(self)@ == (AppView {
                next_id: if notifies(old(self)@, message) {
                    (old(self)@.next_id + 1) as u64
                } else {
                    old(self)@.next_id
                },
                notifications: final(self)@.notifications,
                ..app_after(old(self)@, message)
            }),
            effect_of(old(self)@, message, effect),
            shown_after(old(self)@, message, final(self)@.notifications),
    {
        match message {
            Message::NavigateTo(screen) => {
                self.screen = screen;
                Effect::Nothing
            },
            Message::LanguageChanged(locale) => {
                self.locale = locale;
                Effect::Nothing
            },
            Message::DetectDevicesPressed => {
                self.detecting_devices = true;
                Effect::DetectDevices
            },
            Message::DevicesDetected(result) => {
                self.detecting_devices = false;
                match result {
                    Ok(devices) => {
                        self.devices = devices;
                        Effect::Nothing
                    },
                    Err(err) => {
                        self.raise(NotificationKind::Error, err);
                        Effect::Nothing
                    },
                }
            },
            Message::DeviceSelected(path) => {
                self.source_path = path;
                self.screen = Screen::Scan;
                Effect::Nothing
            },
            Message::SourcePathChanged(path) => {
                self.source_path = path;
                Effect::Nothing
            },
            Message::StrategyChanged(strategy) => {
                self.strategy = strategy;
                Effect::Nothing
            },
            Message::ScanPressed => {
                if trim_str(self.source_path.as_str()).is_empty() {
                    let mut text = String::new();
                    push_str(&mut text, self.translations().scan_error_no_source);
                    self.raise(NotificationKind::Error, text);
                    return Effect::Nothing;
                }
                self.scanning = true;
                Effect::RunScan { source_path: self.source_path.clone(), strategy: self.strategy }
            },
            Message::ScanCompleted(result) => {
                self.scanning = false;
                match result {
                    Ok(count) => {
                        self.file_count = count;
                        self.selected_file = None;
                        self.selected_files.clear();
                        self.export_state = ExportState::Idle;
                        self.screen = Screen::Results;
                        Effect::ClearPreview
                    },
                    Err(err) => {
                        self.raise(NotificationKind::Error, err);
                        Effect::Nothing
                    },
                }
            },
            Message::FileSelected(index) => {
                self.selected_file = Some(index);
                Effect::ShowPreview(index)
            },
            Message::FileToggled(index) => {
                if self.selected_files.contains(&index) {
                    self.selected_files.remove(&index);
                } else {
                    self.selected_files.insert(index);
                }
                Effect::Nothing
            },
            Message::ToggleAll => {
                if self.selected_files.len() == self.file_count {
                    self.selected_files.clear();
                } else {
                    self.selected_files = Self::every_index(self.file_count);
                }
                Effect::Nothing
            },
            Message::ExportPressed => {
                self.export_state = ExportState::Picking;
                Effect::PickFolder
            },
            Message::FolderPicked(None) => {
                self.export_state = ExportState::Idle;
                self.raise(NotificationKind::Info, String::new());
                Effect::Nothing
            },
            Message::FolderPicked(Some(path)) => {
                self.export_state = ExportState::Exporting;
                Effect::RunExport { selected: self.selected_list(), output_dir: path }
            },
            Message::ExportCompleted(count) => {
                self.export_state = ExportState::Idle;
                self.selected_files.clear();
                let text = self.translations().export_success(count);
                self.raise(NotificationKind::Success, text);
                Effect::Nothing
            },
            Message::ExportFailed(err) => {
                self.export_state = ExportState::Idle;
                let text = self.translations().export_error(err.as_str());
                self.raise(NotificationKind::Error, text);
                Effect::Nothing
            },
            Message::ToggleSidebar => {
                self.sidebar_expanded = !self.sidebar_expanded;
                Effect::Nothing
            },
            Message::ToggleConsole => {
                self.console_open = !self.console_open;
                Effect::Nothing
            },
            Message::LogDrainTick => {
                self.drop_expired();
                Effect::DrainLogs
            },
            Message::DismissNotification(id) => {
                self.dismiss(id);
                Effect::Nothing
            },
        }
    }

    /// The line above the results: how many files were found, and how.
    pub fn summary(&self) -> (res: String)
        ensures
            res@ == (match self@.locale {
                Locale::PtBr => "Foram encontrados "@ + decimal(self@.file_count as nat) + " arquivo(s) via "@
                    + strategy_short(self@.strategy) + "."@,
                Locale::En => "Found "@ + decimal(self@.file_count as nat) + " file(s) via "@
                    + strategy_short(self@.strategy) + "."@,
            }),
    {
        let label = match self.strategy {
            StrategyKind::Carver => "carver",
            StrategyKind::Fat32 => "fat32",
        };
        self.translations().files_found(self.file_count, label)
    }

    /// Whether the export button can be pressed: something is selected and
    /// no export is under way.
    pub fn export_enabled(&self) -> (res: bool)
        ensures
            res == (self@.selected.len() > 0 && self@.export_state == ExportState::Idle),
    {
        self.selected_files.len() > 0 && match self.export_state {
            ExportState::Idle => true,
            _ => false,
        }
    }

    /// How many files are selected.
    pub fn selected_count(&self) -> (res: usize)
        ensures
            res == self@.selected.len(),
    {
        self.selected_files.len()
    }

    /// The label of the export button: "Export Selected (N)" in the current
    /// language, N being the number of selected files.
    pub fn export_label(&self) -> (res: String)
        ensures
            res@ == (match self@.locale {
                Locale::PtBr => "Exportar Selecionados ("@ + decimal(self@.selected.len()) + ")"@,
                Locale::En => "Export Selected ("@ + decimal(self@.selected.len()) + ")"@,
            }),
    {
        let n = self.selected_count();
        self.translations().export_selected(n)
    }

    /// The strings of the current language.
    pub fn translations(&self) -> (res: Strings)
        ensures
            strings_of(&res, self@.locale),
            res.language() == self@.locale,
            res.scan_error_no_source@ == no_source_text(self@.locale),
            res.select_all@ == select_all_text(self@.locale),
            res.deselect_all@ == deselect_all_text(self@.locale),
    {
        Strings::for_locale(self.locale)
    }

    /// Whether there are files and every one of them is selected.
    pub fn all_selected(&self) -> (res: bool)
        ensures
            res == (self@.file_count > 0 && self@.selected.len() == self@.file_count),
    {
        self.file_count > 0 && self.selected_files.len() == self.file_count
    }

    /// The label of the button that toggles the whole selection: "deselect
    /// all" when every file is selected, "select all" otherwise.
    pub fn toggle_all_label(&self) -> (res: &'static str)
        ensures
            res@ == if self@.file_count > 0 && self@.selected.len() == self@.file_count {
                deselect_all_text(self@.locale)
            } else {
                select_all_text(self@.locale)
            },
    {
        let strings = self.translations();
        if self.all_selected() {
            strings.deselect_all
        } else {
            strings.select_all
        }
    }

    /// Whether the results screen can be opened: only once files were found.
    pub fn results_enabled(&self) -> (res: bool)
        ensures
            res == (self@.file_count > 0),
    {
        self.file_count > 0
    }

    /// Whether file `index` is selected for export.
    pub fn is_selected(&self, index: usize) -> (res: bool)
        ensures
            res == self@.selected.contains(index),
    {
        self.selected_files.contains(&index)
    }

    pub fn screen(&self) -> (res: Screen)
        ensures
            res == self@.screen,
    {
        self.screen
    }

    pub fn source_path(&self) -> (res: &str)
        ensures
            res@ == self@.source_path,
    {
        self.source_path.as_str()
    }

    pub fn file_count(&self) -> (res: usize)
        ensures
            res == self@.file_count,
    {
        self.file_count
    }

    pub fn selected_file(&self) -> (res: Option<usize>)
        ensures
            res == self@.selected_file,
    {
        self.selected_file
    }

    pub fn scanning(&self) -> (res: bool)
        ensures
            res == self@.scanning,
    {
        self.scanning
    }

    pub fn export_state(&self) -> (res: ExportState)
        ensures
            res == self@.export_state,
    {
        self.export_state
    }

    pub fn devices(&self) -> (res: &[StorageDevice])
        ensures
            res@ == self@.devices,
    {
        self.devices.as_slice()
    }

    pub fn notifications(&self) -> (res: &[Notification])
        ensures
            res@ == self@.notifications,
    {
        self.notifications.as_slice()
    }

    pub fn sidebar_expanded(&self) -> (res: bool)
        ensures
            res == self@.sidebar_expanded,
    {
        self.sidebar_expanded
    }

    pub fn console_open(&self) -> (res: bool)
        ensures
            res == self@.console_open,
    {
        self.console_open
    }

    pub fn detecting_devices(&self) -> (res: bool)
        ensures
            res == self@.detecting_devices,
    {
        self.detecting_devices
    }
}

/// Toggling the same file twice leaves the selection as it was.
pub proof fn lemma_toggle_twice(s: Set<usize>, i: usize)
    ensures
        toggled(toggled(s, i), i) == s,
{
    assert(toggled(toggled(s, i), i) =~= s);
}

proof fn lemma_all_indices_len(n: usize)
    ensures
        all_indices(n).finite(),
        all_indices(n).len() == n,
    decreases n,
{
    if n == 0 {
        assert(all_indices(n) =~= Set::<usize>::empty());
    } else {
        let m = (n - 1) as usize;
        lemma_all_indices_len(m);
        assert(all_indices(n) =~= all_indices(m).insert(m));
    }
}

/// "Toggle all" on files not all selected selects every one of them, so that
/// a second "toggle all" clears the selection.
pub proof fn lemma_toggle_all_selects_every_file(v: AppView)
    requires
        v.selected.len() != v.file_count,
    ensures
        app_after(v, Message::ToggleAll).selected == all_indices(v.file_count),
        app_after(v, Message::ToggleAll).selected.len() == v.file_count,
        app_after(app_after(v, Message::ToggleAll), Message::ToggleAll).selected == Set::<usize>::empty(),
{
    lemma_all_indices_len(v.file_count);
}

/// Toggling the same file twice, by two messages, leaves the state as it was.
pub proof fn lemma_file_toggled_twice(v: AppView, i: usize)
    ensures
        app_after(app_after(v, Message::FileToggled(i)), Message::FileToggled(i)) == v,
        !notifies(v, Message::FileToggled(i)),
{
    lemma_toggle_twice(v.selected, i);
}

/// The indices an export writes, out of a selection `s` and `n` result
/// files: every selected index below `n`, and no other, each once and in
/// increasing order.
pub proof fn lemma_selected_below(s: Set<usize>, n: int)
    requires
        0 <= n <= usize::MAX,
    ensures
        forall|i: usize| #[trigger] selected_below(s, n).contains(i) <==> i < n && s.contains(i),
        forall|a: int, b: int|
            0 <= a < b < selected_below(s, n).len() ==> #[trigger] selected_below(s, n)[a]
                < #[trigger] selected_below(s, n)[b],
        forall|a: int| 0 <= a < selected_below(s, n).len() ==> #[trigger] selected_below(s, n)[a] < n,
    decreases n,
{
    reveal(Seq::filter);
    if n == 0 {
        assert(selected_below(s, 0) =~= Seq::<usize>::empty());
    } else {
        let m = n - 1;
        lemma_selected_below(s, m);
        let f = |k: int| k as usize;
        let p = |k: usize| s.contains(k);
        let longer = Seq::new(n as nat, f);
        assert(longer.drop_last() =~= Seq::new(m as nat, f));
        assert(longer.last() == m as usize);
        let short = selected_below(s, m);
        let sel = selected_below(s, n);
        assert(sel == if p(m as usize) {
            short.push(m as usize)
        } else {
            short
        });
        assert forall|i: usize| #[trigger] sel.contains(i) <==> i < n && s.contains(i) by {
            assert(short.contains(i) <==> i < m && s.contains(i));
            if sel.contains(i) {
                let k = choose|k: int| 0 <= k < sel.len() && sel[k] == i;
                if k < short.len() {
                    assert(short[k] == i);
                }
            }
            if i < n && s.contains(i) {
                if i < m {
                    let k = choose|k: int| 0 <= k < short.len() && short[k] == i;
                    assert(sel[k] == i);
                } else {
                    assert(sel[sel.len() - 1] == i);
                }
            }
        }
        assert forall|a: int| 0 <= a < sel.len() implies #[trigger] sel[a] < n by {
            if a < short.len() {
                assert(sel[a] == short[a]);
            }
        }
        assert forall|a: int, b: int| 0 <= a < b < sel.len() implies #[trigger] sel[a] < #[trigger] sel[b] by {
            assert(sel[a] == short[a]);
            if b < short.len() {
                assert(sel[b] == short[b]);
            } else {
                assert(short[a] < m);
            }
        }
    }
}

/// Picking a folder exports, to that folder, every selected file of the
/// results and no other, each once and in increasing order.
pub proof fn lemma_export_writes_the_selection(v: AppView, dir: String, e: Effect)
    requires
        effect_of(v, Message::FolderPicked(Some(dir)), e),
    ensures
        e matches Effect::RunExport { selected, output_dir } && output_dir == dir && (forall|i: usize| #[trigger]
            selected@.contains(i) <==> i < v.file_count && v.selected.contains(i)) && (forall|a: int, b: int|
            0 <= a < b < selected@.len() ==> #[trigger] selected@[a] < #[trigger] selected@[b]),
{
    lemma_selected_below(v.selected, v.file_count as int);
}

/// A finished scan shows its results with nothing selected, whatever was
/// selected before, and no file previewed or being exported.
pub proof fn lemma_scan_completed_clears_selection(v: AppView, n: usize)
    ensures
        app_after(v, Message::ScanCompleted(Ok(n))).selected == Set::<usize>::empty(),
        app_after(v, Message::ScanCompleted(Ok(n))).file_count == n,
        app_after(v, Message::ScanCompleted(Ok(n))).selected_file == None::<usize>,
        app_after(v, Message::ScanCompleted(Ok(n))).export_state == ExportState::Idle,
        app_after(v, Message::ScanCompleted(Ok(n))).screen == Screen::Results,
        !app_after(v, Message::ScanCompleted(Ok(n))).scanning,
{
}

} // verus!
