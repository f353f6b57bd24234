//! Access to the clocks: the monotonic one that records when a node was last
//! seen, and the wall clock that stamps messages.
use vstd::prelude::*;
use std::sync::{Arc, Mutex};
use std::time::{Duration, Instant};

verus! {

/// When a node was last seen: a monotonic reading behind a lock, shared by
/// every copy of the node, so that a reading stored through one copy is seen
/// through all of them.
pub type Stamp = Arc<Mutex<Instant>>;

/// `std::time::Instant`, carried through the library as an opaque value.
#[verifier::external_type_specification]
#[verifier::external_body]
pub struct ExInstant(std::time::Instant);

/// Calls `std::time::Instant::now`. The result depends on the time at the
/// call, so nothing is stated of it.
#[verifier::external_body]
pub(crate) fn instant_now() -> (now: std::time::Instant) {
    std::time::Instant::now()
}

/// Calls `std::time::Instant::elapsed`. The result depends on the time at
/// the call, so nothing is stated of it.
#[verifier::external_body]
pub(crate) fn instant_elapsed(since: &std::time::Instant) -> (elapsed: std::time::Duration) {
    since.elapsed()
}

/// `std::sync::Mutex`, carried through the library as an opaque value.
#[verifier::external_type_specification]
#[verifier::external_body]
#[verifier::reject_recursive_types(T)]
pub struct ExMutex<T: ?Sized>(std::sync::Mutex<T>);

/// Calls `std::sync::Mutex::new`: a fresh lock holding `now`. What a lock
/// holds is not visible to Verus, so nothing is stated of it.
#[verifier::external_body]
pub(crate) fn new_lock(now: Instant) -> (lock: Mutex<Instant>) {
    Mutex::new(now)
}

/// Calls `Arc::clone`: a second handle on the same lock. Verus sees an `Arc`
/// as the value it points to, and both handles point to the one lock.
#[verifier::external_body]
pub(crate) fn share_stamp(stamp: &Stamp) -> (shared: Stamp)
    ensures
        shared == *stamp,
{
    Arc::clone(stamp)
}

/// Calls `Mutex::lock` on the stamp and stores `now` through the guard; a
/// poisoned lock is left as it is. The lock's contents are not visible to
/// Verus, so nothing is stated of the effect.
#[verifier::external_body]
pub(crate) fn store_stamp(stamp: &Stamp, now: Instant) {
    if let Ok(mut held) = stamp.lock() {
        *held = now;
    }
}

/// Calls `Mutex::lock` on the stamp and copies out the reading it holds, or
/// `None` when the lock is poisoned. The reading depends on what was stored
/// last, through any handle, so nothing is stated of it.
#[verifier::external_body]
pub(crate) fn load_stamp(stamp: &Stamp) -> (reading: Option<Instant>) {
    match stamp.lock() {
        Ok(held) => Some(*held),
        Err(_) => None,
    }
}

/// Calls `Duration::from_secs`. `Duration` is opaque to Verus, so nothing is
/// stated of the result.
#[verifier::external_body]
pub(crate) fn duration_from_secs(secs: u64) -> (d: Duration) {
    Duration::from_secs(secs)
}

/// `std::time::SystemTime`, carried through the library as an opaque value.
#[verifier::external_type_specification]
#[verifier::external_body]
pub struct ExSystemTime(std::time::SystemTime);

/// `std::time::SystemTimeError`, carried through the library as an opaque value.
#[verifier::external_type_specification]
#[verifier::external_body]
pub struct ExSystemTimeError(std::time::SystemTimeError);

/// Calls `std::time::SystemTime::now`. The result depends on the time at the
/// call, so nothing is stated of it.
#[verifier::external_body]
pub(crate) fn system_time_now() -> (now: std::time::SystemTime) {
    std::time::SystemTime::now()
}

/// Calls `SystemTime::duration_since` with `UNIX_EPOCH`: the time elapsed
/// since the epoch, or an error when `t` lies before it. Both are opaque, so
/// nothing is stated of them.
#[verifier::external_body]
pub(crate) fn since_unix_epoch(t: &std::time::SystemTime) -> (r: Result<std::time::Duration, std::time::SystemTimeError>) {
    t.duration_since(std::time::UNIX_EPOCH)
}

/// Calls `SystemTimeError::duration`: how far the time lay before the epoch.
#[verifier::external_body]
pub(crate) fn time_error_duration(e: &std::time::SystemTimeError) -> (d: std::time::Duration) {
    e.duration()
}

/// Calls `Duration::as_secs`: the whole seconds of `d`.
#[verifier::external_body]
pub(crate) fn duration_secs(d: &std::time::Duration) -> (secs: u64) {
    d.as_secs()
}

/// Calls `Duration::subsec_nanos`: the fraction of a second of `d` in
/// nanoseconds, which std documents to be below one billion.
#[verifier::external_body]
pub(crate) fn duration_subsec_nanos(d: &std::time::Duration) -> (nanos: u32)
    ensures
        nanos < 1_000_000_000,
{
    d.subsec_nanos()
}

} // verus!
