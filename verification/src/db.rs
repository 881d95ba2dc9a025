//! Rows of the sealing tables.
use vstd::prelude::*;

verus! {

/// Row in seal_batches representing a single bulk register attempt.
#[derive(Debug, Clone)]
pub struct SealBatchRow {
    pub batch_id: String,
    pub created_at_ms: i64,
    /// CREATED | SUBMITTED | SEALED | FAILED
    pub status: String,
    pub api_base_url: Option<String>,
    pub callback_spec: Option<String>,
    /// e.g. "sha256"
    pub hash_algorithm: String,
    pub hash_count: i64,
    /// usually 32
    pub hash_length_bytes: i64,
}

/// Row in seal_batch_members: manifest of what was sealed.
#[derive(Debug, Clone)]
pub struct SealBatchMemberRow {
    pub seq: i64,
    pub hash_hex: String,
    pub lookup_info: Option<String>,
    /// RUN_ROOT | LEDGER_ROOT | ARTIFACT
    pub source_type: String,
    pub source_ref: Option<String>,
}

} // verus!
