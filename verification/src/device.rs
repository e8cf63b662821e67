//! Storage devices as reported by the Linux sysfs block layer.
use vstd::prelude::*;

use crate::text::{parse_u64, parse_u64_str, push_str, trim_str, trimmed};

verus! {

/// `std::io::Error`, carried inside [`DeviceDetectorError::Io`].
#[verifier::external_type_specification]
#[verifier::external_body]
pub struct ExIoError(std::io::Error);

/// Number of bytes per logical block, as the kernel counts them in
/// `/sys/block/<dev>/size`.
pub const BYTES_PER_BLOCK: u64 = 512;

/// Number of bytes in one gibibyte (1024³).
pub const BYTES_PER_GIB: u64 = 1073741824;

/// A physical storage device available on the system.
#[derive(Debug, Clone)]
pub struct StorageDevice {
    /// Raw device path (e.g. `/dev/sda`).
    pub path: String,
    /// Human-readable model name reported by the device firmware.
    pub name: String,
    /// Total capacity in bytes.
    pub size_bytes: u64,
    /// Whether the OS considers the device removable (e.g. a USB drive).
    pub removable: bool,
}

#[derive(Debug)]
pub enum DeviceDetectorError {
    /// Reading `path` failed.
    Io { path: String, source: std::io::Error },
    /// A sysfs field held `raw_value`, which is not a valid `field`.
    Parse { field: &'static str, raw_value: String },
}

/// Entry point for device enumeration.
pub struct DeviceDetector;

impl DeviceDetector {
    pub fn new() -> (res: Self) {
        DeviceDetector
    }
}

/// Device enumeration on Windows (not implemented: reports no device).
pub struct WindowsDeviceDetector;

impl WindowsDeviceDetector {
    pub fn new() -> (res: Self) {
        WindowsDeviceDetector
    }

    /// Lists the devices of the system: none, enumeration is not implemented.
    pub fn list_devices(&self) -> (res: Result<Vec<StorageDevice>, DeviceDetectorError>)
        ensures
            res matches Ok(v) && v@.len() == 0,
    {
        Ok(Vec::new())
    }
}

/// Device enumeration through `/sys/block`.
pub struct LinuxDeviceDetector;

/// The size in bytes of a device whose sysfs `size` file holds `content`:
/// the trimmed block count times 512, or `None` when it is not a `u64`.
pub open spec fn size_bytes_of(content: Seq<char>) -> Option<int> {
    match parse_u64(trimmed(content)) {
        Some(blocks) => Some(blocks * 512),
        None => None,
    }
}

impl LinuxDeviceDetector {
    pub fn new() -> (res: Self) {
        LinuxDeviceDetector
    }

    /// Converts the 512-byte block count from `/sys/block/<dev>/size` to bytes.
    pub fn parse_size_bytes(content: &str) -> (res: Result<u64, DeviceDetectorError>)
        requires
            size_bytes_of(content@) matches Some(n) ==> n <= u64::MAX,
        ensures
            match size_bytes_of(content@) {
                Some(n) => res matches Ok(v) && v == n,
                None => res matches Err(DeviceDetectorError::Parse { field, raw_value }) && field@
                    == "size"@ && raw_value@ == trimmed(content@),
            },
    {
        let t = trim_str(content);
        match parse_u64_str(t) {
            Some(blocks) => Ok(blocks * BYTES_PER_BLOCK),
            None => {
                let mut raw_value = String::new();
                push_str(&mut raw_value, t);
                assert(raw_value@ =~= trimmed(content@));
                Err(DeviceDetectorError::Parse { field: "size", raw_value })
            },
        }
    }

    /// Parses `/sys/block/<dev>/removable`: `"1"` (after trimming) is
    /// removable, anything else is not.
    pub fn parse_removable(content: &str) -> (res: bool)
        ensures
            res == (trimmed(content@) == seq!['1']),
    {
        let t = trim_str(content);
        let n = t.unicode_len();
        if n == 1 && t.get_char(0) == '1' {
            assert(t@ =~= seq!['1']);
            true
        } else {
            false
        }
    }

    /// Trims the kernel's padding from a device model name.
    pub fn parse_model(content: &str) -> (res: String)
        ensures
            res@ == trimmed(content@),
    {
        let t = trim_str(content);
        let mut res = String::new();
        push_str(&mut res, t);
        assert(res@ =~= trimmed(content@));
        res
    }
}

/// Lexicographic order on character sequences (a proper prefix comes first),
/// which for device paths is the order of `Path::cmp`.
pub open spec fn text_le(a: Seq<char>, b: Seq<char>) -> bool
    decreases a.len(),
{
    if a.len() == 0 {
        true
    } else if b.len() == 0 {
        false
    } else if a[0] != b[0] {
        a[0] < b[0]
    } else {
        text_le(a.drop_first(), b.drop_first())
    }
}

/// Inserts `x` after every device whose path is not greater than its own.
pub open spec fn insert_by_path(sorted: Seq<StorageDevice>, x: StorageDevice) -> Seq<StorageDevice>
    decreases sorted.len(),
{
    if sorted.len() == 0 {
        seq![x]
    } else if text_le(sorted.last().path@, x.path@) {
        sorted.push(x)
    } else {
        insert_by_path(sorted.drop_last(), x).push(sorted.last())
    }
}

/// Stable sort of devices by path.
pub open spec fn sort_by_path(s: Seq<StorageDevice>) -> Seq<StorageDevice>
    decreases s.len(),
{
    if s.len() == 0 {
        s
    } else {
        insert_by_path(sort_by_path(s.drop_last()), s.last())
    }
}

/// Whether `a` comes no later than `b` in lexicographic order.
pub fn path_le(a: &str, b: &str) -> (res: bool)
    ensures
        res == text_le(a@, b@),
{
    let n = a.unicode_len();
    let m = b.unicode_len();
    let mut i: usize = 0;
    assert(a@.skip(0) =~= a@);
    assert(b@.skip(0) =~= b@);
    while i < n && i < m && a.get_char(i) == b.get_char(i)
        invariant
            n == a@.len(),
            m == b@.len(),
            i <= n,
            i <= m,
            text_le(a@, b@) == text_le(a@.skip(i as int), b@.skip(i as int)),
        decreases n - i,
    {
        assert(a@.skip(i as int).drop_first() =~= a@.skip(i + 1));
        assert(b@.skip(i as int).drop_first() =~= b@.skip(i + 1));
        i = i + 1;
    }
    if i == n {
        true
    } else if i == m {
        false
    } else {
        a.get_char(i) < b.get_char(i)
    }
}

proof fn lemma_insert_by_path_split(sorted: Seq<StorageDevice>, x: StorageDevice, j: int)
    requires
        0 <= j <= sorted.len(),
        forall|k: int| j <= k < sorted.len() ==> !text_le(#[trigger] sorted[k].path@, x.path@),
        j == 0 || text_le(sorted[j - 1].path@, x.path@),
    ensures
        insert_by_path(sorted, x) == sorted.insert(j, x),
    decreases sorted.len(),
{
    if sorted.len() == 0 {
        assert(sorted.insert(j, x) =~= seq![x]);
    } else if text_le(sorted.last().path@, x.path@) {
        assert(j == sorted.len());
        assert(sorted.insert(j, x) =~= sorted.push(x));
    } else {
        let init = sorted.drop_last();
        assert forall|k: int| j <= k < init.len() implies !text_le(#[trigger] init[k].path@, x.path@) by {
            assert(init[k] == sorted[k]);
        }
        lemma_insert_by_path_split(init, x, j);
        assert(sorted.insert(j, x) =~= init.insert(j, x).push(sorted.last()));
    }
}

proof fn lemma_text_le_total(a: Seq<char>, b: Seq<char>)
    ensures
        text_le(a, b) || text_le(b, a),
    decreases a.len(),
{
    if a.len() > 0 && b.len() > 0 && a[0] == b[0] {
        lemma_text_le_total(a.drop_first(), b.drop_first());
    }
}

proof fn lemma_text_le_trans(a: Seq<char>, b: Seq<char>, c: Seq<char>)
    requires
        text_le(a, b),
        text_le(b, c),
    ensures
        text_le(a, c),
    decreases a.len(),
{
    if a.len() > 0 && b.len() > 0 && c.len() > 0 && a[0] == b[0] && b[0] == c[0] {
        lemma_text_le_trans(a.drop_first(), b.drop_first(), c.drop_first());
    }
}

/// Ordered by path.
pub open spec fn sorted_by_path(s: Seq<StorageDevice>) -> bool {
    forall|i: int, j: int| 0 <= i < j < s.len() ==> text_le(s[i].path@, s[j].path@)
}

proof fn lemma_insert_by_path(sorted: Seq<StorageDevice>, x: StorageDevice)
    requires
        sorted_by_path(sorted),
    ensures
        sorted_by_path(insert_by_path(sorted, x)),
        insert_by_path(sorted, x).to_multiset() == sorted.to_multiset().insert(x),
    decreases sorted.len(),
{
    broadcast use vstd::seq_lib::group_to_multiset_ensures;

    if sorted.len() == 0 {
        assert(seq![x] =~= Seq::<StorageDevice>::empty().push(x));
    } else if text_le(sorted.last().path@, x.path@) {
        let r = sorted.push(x);
        assert forall|i: int, j: int| 0 <= i < j < r.len() implies text_le(r[i].path@, r[j].path@) by {
            if j == sorted.len() && i < sorted.len() - 1 {
                lemma_text_le_trans(sorted[i].path@, sorted.last().path@, x.path@);
            }
        }
    } else {
        let init = sorted.drop_last();
        let last = sorted.last();
        lemma_text_le_total(last.path@, x.path@);
        assert(sorted_by_path(init));
        lemma_insert_by_path(init, x);
        let r = insert_by_path(init, x);
        assert(sorted =~= init.push(last));
        assert forall|i: int, j: int| 0 <= i < j < r.push(last).len() implies text_le(
            r.push(last)[i].path@,
            r.push(last)[j].path@,
        ) by {
            if j == r.len() {
                assert(r.to_multiset().count(r[i]) > 0);
                if r[i] != x {
                    assert(init.to_multiset().count(r[i]) > 0);
                    assert(init.contains(r[i]));
                    let k = choose|k: int| 0 <= k < init.len() && init[k] == r[i];
                    assert(sorted[k] == init[k]);
                }
            }
        }
        assert(r.push(last).to_multiset() =~= sorted.to_multiset().insert(x));
    }
}

/// Sorting by path orders the devices by path and keeps each of them, as
/// often as it came.
pub proof fn lemma_sort_by_path(s: Seq<StorageDevice>)
    ensures
        sorted_by_path(sort_by_path(s)),
        sort_by_path(s).to_multiset() == s.to_multiset(),
    decreases s.len(),
{
    broadcast use vstd::seq_lib::group_to_multiset_ensures;

    if s.len() > 0 {
        lemma_sort_by_path(s.drop_last());
        lemma_insert_by_path(sort_by_path(s.drop_last()), s.last());
        assert(s =~= s.drop_last().push(s.last()));
    }
}

impl LinuxDeviceDetector {
    /// The device named `dev_name` in `/sys/block`, from the contents of its
    /// `size` and `removable` files and, when present, of its `device/model`
    /// file: its path is `/dev/<dev_name>`, its name the trimmed model or
    /// else `dev_name`.
    pub fn describe_device(
        dev_name: &str,
        size_content: &str,
        removable_content: &str,
        model_content: Option<&str>,
    ) -> (res: Result<StorageDevice, DeviceDetectorError>)
        requires
            size_bytes_of(size_content@) matches Some(n) ==> n <= u64::MAX,
        ensures
            match size_bytes_of(size_content@) {
                Some(n) => res matches Ok(d) && {
                    &&& d.path@ == "/dev/"@ + dev_name@
                    &&& d.name@ == (match model_content {
                        Some(m) => trimmed(m@),
                        None => dev_name@,
                    })
                    &&& d.size_bytes == n
                    &&& d.removable == (trimmed(removable_content@) == seq!['1'])
                },
                None => res matches Err(DeviceDetectorError::Parse { field, raw_value }) && field@
                    == "size"@ && raw_value@ == trimmed(size_content@),
            },
    {
        let size_bytes = Self::parse_size_bytes(size_content)?;
        let removable = Self::parse_removable(removable_content);
        let name = match model_content {
            Some(m) => Self::parse_model(m),
            None => {
                let mut n = String::new();
                push_str(&mut n, dev_name);
                assert(n@ =~= dev_name@);
                n
            },
        };
        let mut path = String::new();
        push_str(&mut path, "/dev/");
        push_str(&mut path, dev_name);
        assert(path@ =~= "/dev/"@ + dev_name@);
        Ok(StorageDevice { path, name, size_bytes, removable })
    }

    /// Sorts devices by path; devices with equal paths keep their order.
    pub fn sort_devices(devices: Vec<StorageDevice>) -> (res: Vec<StorageDevice>)
        ensures
            res@ == sort_by_path(devices@),
            sorted_by_path(res@),
            res@.to_multiset() == devices@.to_multiset(),
    {
        proof {
            lemma_sort_by_path(devices@);
        }
        let mut items = devices;
        let ghost all = items@;
        let mut sorted: Vec<StorageDevice> = Vec::new();
        let n = items.len();
        let mut i: usize = 0;
        assert(all.take(0) =~= Seq::<StorageDevice>::empty());
        while i < n
            invariant
                n == all.len(),
                i <= n,
                items@ == all.skip(i as int),
                sorted@ == sort_by_path(all.take(i as int)),
            decreases n - i,
        {
            let x = items.remove(0);
            assert(x == all[i as int]);
            assert(items@ =~= all.skip(i + 1));
            let mut j = sorted.len();
            while j > 0 && !path_le(sorted[j - 1].path.as_str(), x.path.as_str())
                invariant
                    j <= sorted@.len(),
                    forall|k: int| j <= k < sorted@.len() ==> !text_le(#[trigger] sorted@[k].path@, x.path@),
                decreases j,
            {
                j = j - 1;
            }
            proof {
                lemma_insert_by_path_split(sorted@, x, j as int);
                assert(all.take(i + 1).drop_last() =~= all.take(i as int));
                assert(all.take(i + 1).last() == x);
            }
            sorted.insert(j, x);
            i = i + 1;
        }
        assert(all.take(n as int) =~= all);
        sorted
    }
}

/// The files of a `/sys/block/<name>` entry that stands for a physical
/// device (it has a `device` directory), each as read: its contents or the
/// error reading it gave.
pub struct DeviceFiles {
    /// `size`: the capacity in 512-byte blocks.
    pub size: Result<String, DeviceDetectorError>,
    /// `removable`: `1` for a removable device.
    pub removable: Result<String, DeviceDetectorError>,
    /// `device/model`, when that file exists.
    pub model: Option<Result<String, DeviceDetectorError>>,
}

/// An entry of `/sys/block`: its name and, for a physical device, its files.
pub struct SysBlockEntry {
    pub name: String,
    /// `None` when the entry has no `device` directory (not a physical device).
    pub files: Option<DeviceFiles>,
}

/// Whether an entry yields a device or is skipped, without error: it was
/// listed, and for a physical device every file it needs was read and its
/// size is a block count.
pub open spec fn entry_ok(e: Result<SysBlockEntry, DeviceDetectorError>) -> bool {
    match e {
        Err(_) => false,
        Ok(en) => match en.files {
            None => true,
            Some(f) => {
                &&& f.size matches Ok(s) && size_bytes_of(s@) is Some
                &&& f.removable is Ok
                &&& !(f.model matches Some(Err(_)))
            },
        },
    }
}

/// The error that a failing entry gives, in the order its files are looked
/// at: the listing, `size` (read, then parsed), `removable`, `device/model`.
pub open spec fn entry_error_is(e: Result<SysBlockEntry, DeviceDetectorError>, err: DeviceDetectorError) -> bool {
    match e {
        Err(x) => err == x,
        Ok(en) => match en.files {
            None => false,
            Some(f) => match f.size {
                Err(x) => err == x,
                Ok(s) => if size_bytes_of(s@) is None {
                    err matches DeviceDetectorError::Parse { field, raw_value } && field@ == "size"@
                        && raw_value@ == trimmed(s@)
                } else {
                    match f.removable {
                        Err(x) => err == x,
                        Ok(_) => f.model matches Some(Err(x)) && err == x,
                    }
                },
            },
        },
    }
}

/// The size of a physical entry, if its `size` file holds a block count,
/// fits in a `u64`.
pub open spec fn size_fits(e: Result<SysBlockEntry, DeviceDetectorError>) -> bool {
    match e {
        Ok(en) => match en.files {
            Some(f) => match f.size {
                Ok(s) => match size_bytes_of(s@) {
                    Some(n) => n <= u64::MAX,
                    None => true,
                },
                Err(_) => true,
            },
            None => true,
        },
        Err(_) => true,
    }
}

/// The entries that stand for physical devices, in order.
pub open spec fn physical_entries(entries: Seq<Result<SysBlockEntry, DeviceDetectorError>>) -> Seq<SysBlockEntry>
    decreases entries.len(),
{
    if entries.len() == 0 {
        Seq::empty()
    } else {
        let rest = physical_entries(entries.drop_last());
        match entries.last() {
            Ok(en) => if en.files is Some { rest.push(en) } else { rest },
            Err(_) => rest,
        }
    }
}

/// `d` is the device that physical entry `en` describes.
pub open spec fn describes(d: StorageDevice, en: SysBlockEntry) -> bool {
    en.files matches Some(f) && f.size matches Ok(s) && f.removable matches Ok(r) && size_bytes_of(s@) matches Some(
        n,
    ) && {
        &&& d.path@ == "/dev/"@ + en.name@
        &&& d.name@ == (match f.model {
            Some(Ok(m)) => trimmed(m@),
            _ => en.name@,
        })
        &&& d.size_bytes == n
        &&& d.removable == (trimmed(r@) == seq!['1'])
    }
}

impl LinuxDeviceDetector {
    /// The device an entry of `/sys/block` stands for: `None` for an entry
    /// without a `device` directory, or the entry's error.
    fn device_of_entry(entry: Result<SysBlockEntry, DeviceDetectorError>) -> (res: Result<
        Option<StorageDevice>,
        DeviceDetectorError,
    >)
        requires
            size_fits(entry),
        ensures
            res is Ok <==> entry_ok(entry),
            res matches Err(e) ==> entry_error_is(entry, e),
            res matches Ok(None) ==> entry matches Ok(en) && en.files is None,
            res matches Ok(Some(d)) ==> entry matches Ok(en) && describes(d, en),
    {
        let en = match entry {
            Err(e) => {
                return Err(e);
            },
            Ok(en) => en,
        };
        let SysBlockEntry { name, files } = en;
        let f = match files {
            None => {
                return Ok(None);
            },
            Some(f) => f,
        };
        let DeviceFiles { size, removable, model } = f;
        let size = match size {
            Err(e) => {
                return Err(e);
            },
            Ok(s) => s,
        };
        match Self::parse_size_bytes(size.as_str()) {
            Err(e) => {
                return Err(e);
            },
            Ok(_) => {},
        }
        let removable = match removable {
            Err(e) => {
                return Err(e);
            },
            Ok(r) => r,
        };
        let model = match model {
            Some(Err(e)) => {
                return Err(e);
            },
            Some(Ok(m)) => Some(m),
            None => None,
        };
        let model_ref: Option<&str> = match &model {
            Some(m) => Some(m.as_str()),
            None => None,
        };
        match Self::describe_device(name.as_str(), size.as_str(), removable.as_str(), model_ref) {
            Ok(d) => Ok(Some(d)),
            Err(e) => Err(e),
        }
    }

    /// Whether the entries meet the condition of [`Self::devices_from_sysfs`]:
    /// every size it reaches (those of the entries up to and including the
    /// first that fails) is a block count whose bytes fit in a `u64`.
    pub fn sizes_fit(entries: &Vec<Result<SysBlockEntry, DeviceDetectorError>>) -> (res: bool)
        ensures
            res == (forall|k: int|
                0 <= k < entries@.len() && (forall|j: int| 0 <= j < k ==> entry_ok(#[trigger] entries@[j]))
                    ==> size_fits(#[trigger] entries@[k])),
    {
        let n = entries.len();
        let mut i: usize = 0;
        while i < n
            invariant
                n == entries@.len(),
                i <= n,
                forall|j: int| 0 <= j < i ==> entry_ok(#[trigger] entries@[j]),
                forall|j: int| 0 <= j < i ==> size_fits(#[trigger] entries@[j]),
            decreases n - i,
        {
            let ghost e = entries@[i as int];
            let entry = &entries[i];
            assert(*entry == e);
            match entry {
                Err(_) => {
                    assert(size_fits(e) && !entry_ok(e));
                    return true;
                },
                Ok(en) => match &en.files {
                    None => {},
                    Some(f) => {
                        match &f.size {
                            Err(_) => {
                                assert(size_fits(e) && !entry_ok(e));
                                return true;
                            },
                            Ok(text) => match parse_u64_str(trim_str(text.as_str())) {
                                None => {
                                    assert(size_bytes_of(text@) is None);
                                    assert(size_fits(e) && !entry_ok(e));
                                    return true;
                                },
                                Some(blocks) => {
                                    assert(size_bytes_of(text@) == Some(blocks * 512));
                                    if blocks > u64::MAX / BYTES_PER_BLOCK {
                                        assert(blocks * 512 > u64::MAX) by (nonlinear_arith)
                                            requires
                                                blocks > u64::MAX / 512,
                                        ;
                                        assert(!size_fits(e));
                                        return false;
                                    }
                                    assert(blocks * 512 <= u64::MAX) by (nonlinear_arith)
                                        requires
                                            blocks <= u64::MAX / 512,
                                    ;
                                    assert(size_fits(e));
                                },
                            },
                        }
                        if f.removable.is_err() {
                            assert(!entry_ok(e));
                            return true;
                        }
                        match &f.model {
                            Some(Err(_)) => {
                                assert(!entry_ok(e));
                                return true;
                            },
                            _ => {},
                        }
                    },
                },
            }
            assert(entry_ok(entries@[i as int]));
            i = i + 1;
        }
        true
    }

    /// The devices of `/sys/block` from its entries as read: one device per
    /// entry with a `device` directory, the others skipped, sorted by path;
    /// or the error of the first entry that fails (see [`entry_error_is`]).
    #[verifier::loop_isolation(false)]
    pub fn devices_from_sysfs(entries: Vec<Result<SysBlockEntry, DeviceDetectorError>>) -> (res: Result<
        Vec<StorageDevice>,
        DeviceDetectorError,
    >)
        requires
            forall|k: int|
                0 <= k < entries@.len() && (forall|j: int| 0 <= j < k ==> entry_ok(#[trigger] entries@[j]))
                    ==> size_fits(#[trigger] entries@[k]),
        ensures
            res is Ok <==> forall|k: int| 0 <= k < entries@.len() ==> entry_ok(#[trigger] entries@[k]),
            res matches Ok(v) ==> exists|u: Seq<StorageDevice>|
                u.len() == physical_entries(entries@).len() && (forall|k: int|
                    0 <= k < u.len() ==> describes(#[trigger] u[k], physical_entries(entries@)[k])) && v@
                    == sort_by_path(u),
            res matches Err(e) ==> exists|k: int|
                0 <= k < entries@.len() && !entry_ok(#[trigger] entries@[k]) && (forall|j: int|
                    0 <= j < k ==> entry_ok(entries@[j])) && entry_error_is(entries@[k], e),
    {
        let ghost all = entries@;
        let mut rest = entries;
        let mut devices: Vec<StorageDevice> = Vec::new();
        let n = rest.len();
        let mut i: usize = 0;
        assert(all.take(0) =~= Seq::<Result<SysBlockEntry, DeviceDetectorError>>::empty());
        while i < n
            invariant
                n == all.len(),
                i <= n,
                rest@ == all.skip(i as int),
                forall|j: int| 0 <= j < i ==> entry_ok(#[trigger] all[j]),
                forall|k: int|
                    0 <= k < all.len() && (forall|j: int| 0 <= j < k ==> entry_ok(#[trigger] all[j]))
                        ==> size_fits(#[trigger] all[k]),
                devices@.len() == physical_entries(all.take(i as int)).len(),
                forall|k: int|
                    0 <= k < devices@.len() ==> describes(#[trigger] devices@[k], physical_entries(all.take(i as int))[k]),
            decreases n - i,
        {
            let entry = rest.remove(0);
            assert(entry == all[i as int]);
            assert(rest@ =~= all.skip(i + 1));
            assert(all.take(i + 1).drop_last() =~= all.take(i as int));
            assert(all.take(i + 1).last() == all[i as int]);
            assert(size_fits(all[i as int]));
            match Self::device_of_entry(entry) {
                Err(e) => {
                    assert(!entry_ok(all[i as int]) && entry_error_is(all[i as int], e));
                    return Err(e);
                },
                Ok(Some(d)) => {
                    devices.push(d);
                },
                Ok(None) => {},
            }
            i = i + 1;
        }
        assert(all.take(n as int) =~= all);
        let sorted = Self::sort_devices(devices);
        Ok(sorted)
    }
}

} // verus!
