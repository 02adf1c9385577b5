use vstd::prelude::*;

verus! {

/// Severity of an engine event.
#[derive(Debug, Clone, Copy, PartialEq, Eq, Structural)]
pub enum EventLevel {
    Info,
    Warn,
    Error,
}

impl Default for EventLevel {
    fn default() -> (level: Self)
        ensures
            level == EventLevel::Info,
    {
        EventLevel::Info
    }
}

/// What an engine event reports.
#[derive(Debug, Clone, Copy, PartialEq, Eq, Structural)]
pub enum EventKind {
    Info,
    Warn,
    Error,
    Heartbeat,
    DryRunOpportunity,
    DryRunExecuted,
}

impl Default for EventKind {
    fn default() -> (kind: Self)
        ensures
            kind == EventKind::Info,
    {
        EventKind::Info
    }
}

/// One entry of the engine's event log.
///
/// `id` is the event's random (version 4) UUID as a 128-bit integer, and
/// `ts_secs` / `ts_nanos` the time it was created: whole seconds since the
/// Unix epoch (UTC) and the nanoseconds within that second.
/// `seq` is the position the log gives the event when it is pushed.
#[derive(Debug)]
pub struct EngineEvent {
    pub id: u128,
    pub seq: u64,
    pub ts_secs: i64,
    pub ts_nanos: u32,
    pub level: EventLevel,
    pub kind: EventKind,
    pub message: String,
}

impl Clone for EngineEvent {
    fn clone(&self) -> (res: Self)
        ensures
            res == *self,
    {
        EngineEvent {
            id: self.id,
            seq: self.seq,
            ts_secs: self.ts_secs,
            ts_nanos: self.ts_nanos,
            level: self.level,
            kind: self.kind,
            message: self.message.clone(),
        }
    }
}

/// The layout of a random (version 4, RFC 9562 variant) UUID read as a
/// big-endian 128-bit integer: version nibble 4 in bits 76..80 and the
/// variant bits `10` in bits 62..64.
pub open spec fn is_random_uuid(id: u128) -> bool {
    &&& (id as int / 0x1_0000_0000_0000_0000_000) % 16 == 4
    &&& (id as int / 0x4000_0000_0000_0000) % 4 == 2
}

/// A fresh random identifier: `uuid::Uuid::new_v4`, read back with
/// `Uuid::as_u128`. The bits are random; what every outcome has is the
/// version-4 layout, which `new_v4` sets by masking in the version and
/// variant bits.
#[verifier::external_body]
fn fresh_event_id() -> (id: u128)
    ensures
        is_random_uuid(id),
{
    uuid::Uuid::new_v4().as_u128()
}

/// The current time as whole seconds since the Unix epoch and nanoseconds
/// within the second: `chrono::Utc::now`, read with `DateTime::timestamp` and
/// `DateTime::timestamp_subsec_nanos`. The value depends on the clock; what
/// every outcome has is that it is not before the epoch (`Utc::now` panics on
/// a clock set before 1970) and that the nanoseconds are below one second
/// (`Utc::now` builds the time from a `Duration`'s sub-second nanoseconds).
#[verifier::external_body]
fn current_time() -> (time: (i64, u32))
    ensures
        time.0 >= 0,
        time.1 < 1_000_000_000,
{
    let now = chrono::Utc::now();
    (now.timestamp(), now.timestamp_subsec_nanos())
}

impl EngineEvent {
    /// What every freshly created event is: a new random id, a timestamp not
    /// before the epoch, sequence number 0, and the given level, kind and message.
    pub open spec fn is_fresh(self, level: EventLevel, kind: EventKind, message: String) -> bool {
        &&& is_random_uuid(self.id)
        &&& self.ts_secs >= 0
        &&& self.ts_nanos < 1_000_000_000
        &&& self.seq == 0
        &&& self.level == level
        &&& self.kind == kind
        &&& self.message == message
    }

    fn new(level: EventLevel, kind: EventKind, message: String) -> (event: Self)
        ensures
            event.is_fresh(level, kind, message),
    {
        let id: u128 = fresh_event_id();
        let (ts_secs, ts_nanos) = current_time();
        EngineEvent {
            id,
            seq: 0,
            ts_secs,
            ts_nanos,
            level,
            kind,
            message,
        }
    }

    /// An informational event.
    pub fn info(message: String) -> (event: Self)
        ensures
            event.is_fresh(EventLevel::Info, EventKind::Info, message),
    {
        Self::new(EventLevel::Info, EventKind::Info, message)
    }

    /// A warning event.
    pub fn warn(message: String) -> (event: Self)
        ensures
            event.is_fresh(EventLevel::Warn, EventKind::Warn, message),
    {
        Self::new(EventLevel::Warn, EventKind::Warn, message)
    }

    /// An error event.
    pub fn error(message: String) -> (event: Self)
        ensures
            event.is_fresh(EventLevel::Error, EventKind::Error, message),
    {
        Self::new(EventLevel::Error, EventKind::Error, message)
    }

    /// A heartbeat of the scan loop (informational level).
    pub fn heartbeat(message: String) -> (event: Self)
        ensures
            event.is_fresh(EventLevel::Info, EventKind::Heartbeat, message),
    {
        Self::new(EventLevel::Info, EventKind::Heartbeat, message)
    }

    /// An opportunity seen in dry-run mode (informational level).
    pub fn dry_run_opportunity(message: String) -> (event: Self)
        ensures
            event.is_fresh(EventLevel::Info, EventKind::DryRunOpportunity, message),
    {
        Self::new(EventLevel::Info, EventKind::DryRunOpportunity, message)
    }

    /// A trade that dry-run mode would have executed (informational level).
    pub fn dry_run_executed(message: String) -> (event: Self)
        ensures
            event.is_fresh(EventLevel::Info, EventKind::DryRunExecuted, message),
    {
        Self::new(EventLevel::Info, EventKind::DryRunExecuted, message)
    }
}

} // verus!
