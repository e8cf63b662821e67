//! Toast notifications of the desktop interface.
use std::time::{Duration, Instant};

use vstd::prelude::*;

verus! {

/// `std::time::Instant`: when a notification was created.
#[verifier::external_type_specification]
#[verifier::external_body]
pub struct ExInstant(Instant);

/// The current instant.
///
/// Trusted: calls `Instant::now`; nothing is promised of the result, which
/// depends on the clock.
#[verifier::external_body]
fn instant_now() -> (res: Instant) {
    Instant::now()
}

/// The time elapsed since `t`.
///
/// Trusted: calls `Instant::elapsed`; nothing is promised of the result,
/// which depends on the clock.
#[verifier::external_body]
fn instant_elapsed(t: &Instant) -> (res: Duration) {
    t.elapsed()
}

/// The whole milliseconds in `d`.
///
/// Trusted: calls `Duration::as_millis`; `Duration` is opaque here, so
/// nothing is promised of the result.
#[verifier::external_body]
fn duration_as_millis(d: &Duration) -> (res: u128) {
    d.as_millis()
}

/// How long a success notification stays on screen, in milliseconds.
pub const SUCCESS_TTL_MS: u64 = 4000;

/// How long an informational notification stays on screen, in milliseconds.
pub const INFO_TTL_MS: u64 = 4000;

#[derive(Debug, Clone, Copy, PartialEq, Eq, Structural)]
pub enum NotificationKind {
    Success,
    Error,
    Warning,
    Info,
}

#[derive(Debug)]
pub struct Notification {
    pub id: u64,
    pub kind: NotificationKind,
    pub message: String,
    pub created_at: Instant,
    /// How long the notification lives, in milliseconds; `None` means it
    /// stays until dismissed.
    pub ttl_ms: Option<u64>,
}

/// A notification whose time to live is `ttl` has expired after `elapsed_ms`
/// milliseconds when that much time has passed.
pub open spec fn expired_after(ttl: Option<u64>, elapsed_ms: u128) -> bool {
    match ttl {
        Some(t) => elapsed_ms >= t,
        None => false,
    }
}

impl Notification {
    /// A success notification, shown for [`SUCCESS_TTL_MS`].
    pub fn success(id: u64, message: String) -> (res: Self)
        ensures
            res.id == id,
            res.kind == NotificationKind::Success,
            res.message@ == message@,
            res.ttl_ms == Some(SUCCESS_TTL_MS),
    {
        Notification {
            id,
            kind: NotificationKind::Success,
            message,
            created_at: instant_now(),
            ttl_ms: Some(SUCCESS_TTL_MS),
        }
    }

    /// An error notification, shown until dismissed.
    pub fn error(id: u64, message: String) -> (res: Self)
        ensures
            res.id == id,
            res.kind == NotificationKind::Error,
            res.message@ == message@,
            res.ttl_ms == None::<u64>,
    {
        Notification { id, kind: NotificationKind::Error, message, created_at: instant_now(), ttl_ms: None }
    }

    /// An informational notification, shown for [`INFO_TTL_MS`].
    pub fn info(id: u64, message: String) -> (res: Self)
        ensures
            res.id == id,
            res.kind == NotificationKind::Info,
            res.message@ == message@,
            res.ttl_ms == Some(INFO_TTL_MS),
    {
        Notification {
            id,
            kind: NotificationKind::Info,
            message,
            created_at: instant_now(),
            ttl_ms: Some(INFO_TTL_MS),
        }
    }

    /// Whether the notification has expired `elapsed_ms` milliseconds after
    /// its creation.
    pub fn is_expired_after(&self, elapsed_ms: u128) -> (res: bool)
        ensures
            res == expired_after(self.ttl_ms, elapsed_ms),
    {
        match self.ttl_ms {
            Some(ttl) => elapsed_ms >= ttl as u128,
            None => false,
        }
    }

    /// Whether the notification's time to live has passed, by the clock:
    /// the result is [`expired_after`] of the milliseconds elapsed since its
    /// creation, which the clock decides. One without a time to live never
    /// expires; one whose time to live is 0 always has.
    pub fn is_expired(&self) -> (res: bool)
        ensures
            exists|elapsed_ms: u128| res == #[trigger] expired_after(self.ttl_ms, elapsed_ms),
            self.ttl_ms is None ==> !res,
    {
        let elapsed = instant_elapsed(&self.created_at);
        let ms = duration_as_millis(&elapsed);
        let res = self.is_expired_after(ms);
        assert(res == expired_after(self.ttl_ms, ms));
        res
    }
}

} // verus!
