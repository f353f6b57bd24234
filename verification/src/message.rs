//! Messages exchanged between nodes.
use vstd::prelude::*;
use crate::clock::{system_time_now, since_unix_epoch, time_error_duration, duration_secs, duration_subsec_nanos};

verus! {

/// What a message is about.
#[derive(Debug, Clone, Copy, PartialEq, Eq, Structural)]
pub enum MessageType {
    Discovery,
    ResourceOffer,
    TaskRequest,
    TaskResult,
    Tick,
    Heartbeat,
}

/// A message from one node to another, or to all (`to` is `None`).
/// `timestamp` is in milliseconds since the Unix epoch.
#[derive(Debug, Clone)]
pub struct MeshMessage {
    pub from: String,
    pub to: Option<String>,
    pub message_type: MessageType,
    pub payload: String,
    pub timestamp: i64,
}

/// A message as plain values.
pub struct MeshMessageView {
    pub from: Seq<char>,
    pub to: Option<Seq<char>>,
    pub message_type: MessageType,
    pub payload: Seq<char>,
    pub timestamp: i64,
}

impl View for MeshMessage {
    type V = MeshMessageView;

    open spec fn view(&self) -> MeshMessageView {
        MeshMessageView {
            from: self.from@,
            to: self.to.deep_view(),
            message_type: self.message_type,
            payload: self.payload@,
            timestamp: self.timestamp,
        }
    }
}

/// Calls `chrono::DateTime::<Utc>::from_timestamp(secs, nsecs)` and reads the
/// `timestamp_millis()` of what it gives: `None` when chrono cannot represent
/// that instant; otherwise the milliseconds since the Unix epoch, which are the
/// whole seconds times a thousand plus the whole milliseconds of `nsecs`
/// (chrono documents that `from_timestamp` round-trips with `timestamp` and
/// `timestamp_subsec_nanos`). chrono represents every year within about
/// 262,000 years of year zero, so it answers for any `secs` within two
/// trillion seconds (about 63,000 years) of the epoch.
#[verifier::external_body]
fn utc_timestamp_millis(secs: i64, nsecs: u32) -> (millis: Option<i64>)
    requires
        nsecs < 1_000_000_000,
    ensures
        millis matches Some(m) ==> m == secs * 1000 + nsecs / 1_000_000,
        -2_000_000_000_000 <= secs <= 2_000_000_000_000 ==> millis is Some,
{
    match chrono::DateTime::<chrono::Utc>::from_timestamp(secs, nsecs) {
        Some(t) => Some(t.timestamp_millis()),
        None => None,
    }
}

/// The milliseconds since the Unix epoch of the instant `secs` seconds and
/// `nanos` nanoseconds after it (before it, when `before_epoch`), rounded
/// down to a whole millisecond.
pub open spec fn epoch_millis_of(before_epoch: bool, secs: int, nanos: int) -> int {
    let total = secs * 1_000_000_000 + nanos;
    if before_epoch {
        (-total) / 1_000_000
    } else {
        total / 1_000_000
    }
}

/// Whole milliseconds split off whole seconds: dividing by a million after
/// adding a multiple of a million adds the multiple's factor.
proof fn lemma_millis_split(q: int, r: int)
    ensures
        (q * 1_000_000 + r) / 1_000_000 == q + r / 1_000_000,
{
    vstd::arithmetic::div_mod::lemma_hoist_over_denominator(r, q, 1_000_000);
}

/// The milliseconds since the Unix epoch of a clock reading given as its
/// distance from the epoch: `secs` seconds and `nanos` nanoseconds, before the
/// epoch when `before_epoch`. chrono converts the reading: exact within a
/// trillion seconds of the epoch; beyond that, where chrono cannot represent
/// the instant, the result may be clamped to `i64::MIN` (before) or
/// `i64::MAX` (after).
pub fn epoch_millis(before_epoch: bool, secs: u64, nanos: u32) -> (millis: i64)
    requires
        nanos < 1_000_000_000,
    ensures
        secs <= 1_000_000_000_000 ==> millis == epoch_millis_of(before_epoch, secs as int, nanos as int),
        millis == epoch_millis_of(before_epoch, secs as int, nanos as int)
            || millis == (if before_epoch { i64::MIN } else { i64::MAX }),
{
    let clamp: i64 = if before_epoch { i64::MIN } else { i64::MAX };
    if secs >= 9_223_372_036_854_775_807u64 {
        return clamp;
    }
    let s: i64 = secs as i64;
    let (whole, frac): (i64, u32) = if !before_epoch {
        (s, nanos)
    } else if nanos == 0 {
        (-s, 0)
    } else {
        (-s - 1, 1_000_000_000 - nanos)
    };
    proof {
        let total = secs * 1_000_000_000 + nanos;
        assert(total == whole * 1_000_000_000 + frac || before_epoch);
        assert(before_epoch ==> -total == whole * 1_000_000_000 + frac);
        lemma_millis_split(whole * 1000, frac as int);
        assert(whole * 1000 * 1_000_000 == whole * 1_000_000_000);
        assert(epoch_millis_of(before_epoch, secs as int, nanos as int) == whole * 1000 + frac / 1_000_000);
    }
    match utc_timestamp_millis(whole, frac) {
        Some(m) => m,
        None => clamp,
    }
}

/// The wall clock in milliseconds since the Unix epoch, negative before it.
fn now_millis() -> i64 {
    let now = system_time_now();
    match since_unix_epoch(&now) {
        Ok(d) => epoch_millis(false, duration_secs(&d), duration_subsec_nanos(&d)),
        Err(e) => {
            let d = time_error_duration(&e);
            epoch_millis(true, duration_secs(&d), duration_subsec_nanos(&d))
        },
    }
}

impl MeshMessage {
    /// A message stamped with the given time.
    pub fn with_timestamp(
        from: &str,
        to: Option<&str>,
        message_type: MessageType,
        payload: &str,
        timestamp: i64,
    ) -> (msg: Self)
        ensures
            msg@ == (MeshMessageView {
                from: from@,
                to: match to {
                    Some(t) => Some(t@),
                    None => None,
                },
                message_type,
                payload: payload@,
                timestamp,
            }),
    {
        let to = match to {
            Some(t) => Some(t.to_string()),
            None => None,
        };
        MeshMessage { from: from.to_string(), to, message_type, payload: payload.to_string(), timestamp }
    }

    /// A message stamped with the current time.
    pub fn new(from: &str, to: Option<&str>, message_type: MessageType, payload: &str) -> (msg: Self)
        ensures
            msg@.from == from@,
            msg@.to == (match to {
                Some(t) => Some(t@),
                None => None::<Seq<char>>,
            }),
            msg@.message_type == message_type,
            msg@.payload == payload@,
    {
        let timestamp = now_millis();
        Self::with_timestamp(from, to, message_type, payload, timestamp)
    }

    /// A broadcast announcing `from`, with payload "discover".
    pub fn discovery(from: &str) -> (msg: Self)
        ensures
            msg@.from == from@,
            msg@.to is None,
            msg@.message_type == MessageType::Discovery,
            msg@.payload == "discover"@,
    {
        Self::new(from, None, MessageType::Discovery, "discover")
    }

    /// A broadcast keep-alive from `from`, with payload "heartbeat".
    pub fn heartbeat(from: &str) -> (msg: Self)
        ensures
            msg@.from == from@,
            msg@.to is None,
            msg@.message_type == MessageType::Heartbeat,
            msg@.payload == "heartbeat"@,
    {
        Self::new(from, None, MessageType::Heartbeat, "heartbeat")
    }

    /// Whether the message goes to every node.
    pub fn is_broadcast(&self) -> (b: bool)
        ensures
            b == (self@.to is None),
    {
        self.to.is_none()
    }
}

} // verus!
