//! Hash candidates: the hashes that could be sealed, with where they came from.
use vstd::prelude::*;

verus! {

/// A UTC instant as a Unix timestamp: whole seconds since 1970-01-01T00:00:00Z
/// (floored, so negative before the epoch) and the nanoseconds past that second.
/// During a leap second `subsec_nanos` runs from 1_000_000_000 up to 1_999_999_999,
/// as it does in `chrono::DateTime<Utc>`.
#[derive(Clone, Copy, Debug)]
pub struct UtcTimestamp {
    pub secs: i64,
    pub subsec_nanos: u32,
}

/// Milliseconds since the Unix epoch, leap milliseconds folded into the second:
/// `secs * 1000 + subsec_nanos / 1_000_000`. This is what
/// `chrono::DateTime::timestamp_millis` computes from `timestamp()` and
/// `timestamp_subsec_nanos()`.
pub open spec fn timestamp_millis_of(t: UtcTimestamp) -> int {
    t.secs * 1000 + t.subsec_nanos / 1_000_000
}

/// Both steps of that computation fit in an `i64`. Every instant that
/// `chrono::DateTime<Utc>` can represent satisfies this.
pub open spec fn millis_fit_i64(t: UtcTimestamp) -> bool {
    &&& i64::MIN <= t.secs * 1000
    &&& timestamp_millis_of(t) <= i64::MAX
}

impl UtcTimestamp {
    /// The instant in milliseconds since the Unix epoch.
    pub fn timestamp_millis(&self) -> (ms: i64)
        requires
            millis_fit_i64(*self),
        ensures
            ms == timestamp_millis_of(*self),
    {
        let sub_ms: u32 = self.subsec_nanos / 1_000_000;
        let as_ms: i64 = self.secs * 1000;
        as_ms + sub_ms as i64
    }
}

/// A single hash candidate that could be sealed.
#[derive(Debug, Clone)]
pub struct HashCandidate {
    pub hash_hex: String,
    pub lookup_info: Option<String>,
    /// RUN_ROOT | LEDGER_ROOT | ARTIFACT (free-form string for now)
    pub source_type: String,
    /// Run id, checkpoint id, or artifact id
    pub source_ref: Option<String>,
    /// Milliseconds since Unix epoch when this hash was created
    pub created_at_ms: i64,
}

/// The characters of an optional string.
pub open spec fn opt_view(s: Option<String>) -> Option<Seq<char>> {
    match s {
        Some(v) => Some(v@),
        None => None,
    }
}

impl HashCandidate {
    /// A candidate created at `created_at`, recorded in milliseconds since the epoch.
    pub fn new(
        hash_hex: String,
        lookup_info: Option<String>,
        source_type: String,
        source_ref: Option<String>,
        created_at: UtcTimestamp,
    ) -> (c: Self)
        requires
            millis_fit_i64(created_at),
        ensures
            c.hash_hex == hash_hex,
            c.lookup_info == lookup_info,
            c.source_type == source_type,
            c.source_ref == source_ref,
            c.created_at_ms == timestamp_millis_of(created_at),
    {
        let created_at_ms = created_at.timestamp_millis();
        HashCandidate { hash_hex, lookup_info, source_type, source_ref, created_at_ms }
    }
}

} // verus!
