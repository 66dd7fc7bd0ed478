use vstd::prelude::*;

verus! {

/// A moment in time: whole seconds since the Unix epoch and the nanoseconds
/// within that second.
#[derive(Debug, Clone, Copy, PartialEq, Eq, Structural)]
pub struct Timestamp {
    pub secs: u64,
    pub nanos: u32,
}

/// A well-formed timestamp: its nanosecond part never reaches a whole
/// second.
pub open spec fn ts_wf(t: Timestamp) -> bool {
    t.nanos < 1_000_000_000
}

/// The strict order on timestamps: by seconds, then by nanoseconds.
pub open spec fn ts_lt(a: Timestamp, b: Timestamp) -> bool {
    a.secs < b.secs || (a.secs == b.secs && a.nanos < b.nanos)
}

impl Timestamp {
    /// Whether this moment lies strictly before `other`.
    pub fn is_before(&self, other: &Timestamp) -> (r: bool)
        ensures
            r == ts_lt(*self, *other),
    {
        self.secs < other.secs || (self.secs == other.secs && self.nanos < other.nanos)
    }
}

/// Relies on std::time::SystemTime::now, read as a duration since the Unix
/// epoch. What the clock says cannot be known, but the nanosecond part of a
/// duration is always within one second; a clock set before the epoch reads
/// as the epoch itself.
#[verifier::external_body]
pub(crate) fn now_timestamp() -> (r: Timestamp)
    ensures
        ts_wf(r),
{
    match std::time::SystemTime::now().duration_since(std::time::UNIX_EPOCH) {
        Ok(d) => Timestamp { secs: d.as_secs(), nanos: d.subsec_nanos() },
        Err(_) => Timestamp { secs: 0, nanos: 0 },
    }
}

} // verus!
