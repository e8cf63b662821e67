//! Which log events the interface console keeps, and how many.
use std::collections::VecDeque;

use vstd::prelude::*;

verus! {

/// Most entries the console buffer holds; the oldest are dropped first.
pub const MAX_ENTRIES: usize = 500;

/// Severity of a log event, from the most to the least verbose.
#[derive(Debug, Clone, Copy, PartialEq, Eq, Structural)]
pub enum LogLevel {
    Trace,
    Debug,
    Info,
    Warn,
    Error,
}

/// A captured log event.
#[derive(Debug, Clone)]
pub struct LogEntry {
    pub level: LogLevel,
    pub target: String,
    pub message: String,
}

/// The targets whose events the console shows: the project's own crates.
pub open spec fn allowed_targets() -> Seq<Seq<char>> {
    seq!["recovery_engine"@, "file_carver"@, "device_detector"@, "ui"@]
}

/// Events at least as severe as `Info` whose target starts with an allowed
/// target are captured.
pub open spec fn captured(level: LogLevel, target: Seq<char>) -> bool {
    &&& level != LogLevel::Trace
    &&& level != LogLevel::Debug
    &&& exists|i: int| 0 <= i < allowed_targets().len() && allowed_targets()[i].is_prefix_of(target)
}

fn starts_with(s: &str, prefix: &str) -> (res: bool)
    ensures
        res == prefix@.is_prefix_of(s@),
{
    let n = s.unicode_len();
    let m = prefix.unicode_len();
    if m > n {
        return false;
    }
    let mut i: usize = 0;
    while i < m
        invariant
            m <= n,
            n == s@.len(),
            m == prefix@.len(),
            i <= m,
            forall|j: int| 0 <= j < i ==> prefix@[j] == s@[j],
        decreases m - i,
    {
        if s.get_char(i) != prefix.get_char(i) {
            return false;
        }
        i = i + 1;
    }
    true
}

/// The console keeps exactly the events at `Info` or above from the
/// project's crates: those whose target starts with `recovery_engine`,
/// `file_carver`, `device_detector` or `ui`.
pub proof fn lemma_captured_project_crates(level: LogLevel, target: Seq<char>)
    ensures
        captured(level, target) <==> (level == LogLevel::Info || level == LogLevel::Warn || level == LogLevel::Error)
            && ("recovery_engine"@.is_prefix_of(target) || "file_carver"@.is_prefix_of(target)
            || "device_detector"@.is_prefix_of(target) || "ui"@.is_prefix_of(target)),
{
    let ts = allowed_targets();
    if exists|i: int| 0 <= i < ts.len() && ts[i].is_prefix_of(target) {
        let i = choose|i: int| 0 <= i < ts.len() && ts[i].is_prefix_of(target);
        assert(i == 0 || i == 1 || i == 2 || i == 3);
    }
    if "recovery_engine"@.is_prefix_of(target) {
        assert(ts[0].is_prefix_of(target));
    }
    if "file_carver"@.is_prefix_of(target) {
        assert(ts[1].is_prefix_of(target));
    }
    if "device_detector"@.is_prefix_of(target) {
        assert(ts[2].is_prefix_of(target));
    }
    if "ui"@.is_prefix_of(target) {
        assert(ts[3].is_prefix_of(target));
    }
}

/// Whether the console captures an event of `level` from `target`.
pub fn capture_enabled(level: LogLevel, target: &str) -> (res: bool)
    ensures
        res == captured(level, target@),
        res <==> (level == LogLevel::Info || level == LogLevel::Warn || level == LogLevel::Error) && (
        "recovery_engine"@.is_prefix_of(target@) || "file_carver"@.is_prefix_of(target@)
            || "device_detector"@.is_prefix_of(target@) || "ui"@.is_prefix_of(target@)),
{
    proof {
        lemma_captured_project_crates(level, target@);
    }
    if level == LogLevel::Trace || level == LogLevel::Debug {
        return false;
    }
    let a = starts_with(target, "recovery_engine");
    let b = starts_with(target, "file_carver");
    let c = starts_with(target, "device_detector");
    let d = starts_with(target, "ui");
    proof {
        let ts = allowed_targets();
        if a {
            assert(ts[0].is_prefix_of(target@));
        }
        if b {
            assert(ts[1].is_prefix_of(target@));
        }
        if c {
            assert(ts[2].is_prefix_of(target@));
        }
        if d {
            assert(ts[3].is_prefix_of(target@));
        }
        if !(a || b || c || d) {
            assert(!ts[0].is_prefix_of(target@) && !ts[1].is_prefix_of(target@) && !ts[2].is_prefix_of(
                target@,
            ) && !ts[3].is_prefix_of(target@));
        }
    }
    a || b || c || d
}

/// `before` with `entry` appended, the oldest entry dropped first when
/// `before` already holds [`MAX_ENTRIES`].
pub open spec fn capped_push<T>(before: Seq<T>, entry: T) -> Seq<T> {
    (if before.len() >= MAX_ENTRIES { before.drop_first() } else { before }).push(entry)
}

/// Appends `entry` to `buffer`, first dropping the oldest entry when the
/// buffer already holds [`MAX_ENTRIES`].
pub fn push_capped<T>(buffer: &mut VecDeque<T>, entry: T)
    ensures
        final(buffer)@ == capped_push(old(buffer)@, entry),
{
    if buffer.len() >= MAX_ENTRIES {
        let _ = buffer.pop_front();
    }
    buffer.push_back(entry);
}

/// The console buffer never grows past [`MAX_ENTRIES`]: a push onto a buffer
/// within the limit leaves it within the limit.
pub proof fn lemma_push_capped_bounded<T>(before: Seq<T>, entry: T)
    requires
        before.len() <= MAX_ENTRIES,
    ensures
        capped_push(before, entry).len() <= MAX_ENTRIES,
        capped_push(before, entry).last() == entry,
{
}

} // verus!
