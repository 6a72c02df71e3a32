//! Configuration of a store and the results its operations report.
use vstd::prelude::*;

verus! {

/// What a caller prefers when speed and thoroughness conflict.
#[derive(Clone, Copy, Debug, PartialEq, Eq, Structural)]
pub enum QualityPreference {
    Fastest,
    Balanced,
    Exhaustive,
}

/// The assurance level behind a search result.
#[derive(Clone, Copy, Debug, PartialEq, Eq, Structural)]
pub enum ResponseQuality {
    /// The answer may be incomplete: the primary path was under suspicion and
    /// could not be checked.
    Degraded,
    /// The primary, index-accelerated answer.
    BestEffort,
    /// Checked by an exhaustive scan.
    Exhaustive,
}

/// Assurance levels in increasing order.
pub open spec fn quality_rank(q: ResponseQuality) -> nat {
    match q {
        ResponseQuality::Degraded => 0,
        ResponseQuality::BestEffort => 1,
        ResponseQuality::Exhaustive => 2,
    }
}

/// The rank of an assurance level.
pub fn rank(q: ResponseQuality) -> (r: u8)
    ensures
        r == quality_rank(q),
{
    match q {
        ResponseQuality::Degraded => 0,
        ResponseQuality::BestEffort => 1,
        ResponseQuality::Exhaustive => 2,
    }
}

/// Whether mutations append witness records.
#[derive(Clone, Copy, Debug, PartialEq, Eq, Structural)]
pub struct WitnessConfig {
    pub enabled: bool,
}

/// Options of a store.
#[derive(Clone, Copy, Debug, PartialEq, Eq, Structural)]
pub struct RvfOptions {
    /// Dimension of every vector.
    pub dim: u32,
    /// Default search-quality preference.
    pub quality: QualityPreference,
    /// Witness logging.
    pub witness: WitnessConfig,
    /// A vector segment is compacted once this many thousandths of its vectors are dead.
    pub compaction_dead_permille: u32,
    /// A vector segment is compacted once this many of its vectors are dead.
    pub compaction_tombstone_threshold: u32,
    /// Tokens of each caller's bucket.
    pub bucket_capacity: u64,
    /// Tokens that come back every interval.
    pub bucket_refill: u64,
    /// Refill interval in nanoseconds.
    pub bucket_interval_ns: u64,
    /// Leading zero bits that a proof of work must have.
    pub pow_difficulty: u32,
    /// Queries answered below this assurance level trigger the safety net.
    pub assurance: ResponseQuality,
    /// Most vectors that one safety-net scan reads.
    pub safety_net_cap: u32,
    /// Every this many queries one is audited by the safety net; 0 disables auditing.
    pub audit_every: u64,
}

impl RvfOptions {
    /// Options with the usual defaults for vectors of dimension `dim`.
    pub fn with_dim(dim: u32) -> (r: Self)
        ensures
            r.dim == dim,
            r.witness.enabled,
            r.bucket_interval_ns > 0,
            r.pow_difficulty <= 64,
    {
        RvfOptions {
            dim,
            quality: QualityPreference::Balanced,
            witness: WitnessConfig { enabled: true },
            compaction_dead_permille: 250,
            compaction_tombstone_threshold: 64,
            bucket_capacity: 100,
            bucket_refill: 100,
            bucket_interval_ns: 1_000_000_000,
            pow_difficulty: 8,
            assurance: ResponseQuality::BestEffort,
            safety_net_cap: 1024,
            audit_every: 0,
        }
    }
}

/// What an ingest wrote.
#[derive(Clone, Copy, Debug, PartialEq, Eq, Structural)]
pub struct IngestResult {
    pub segments_written: u64,
    pub bytes_written: u64,
}

/// What a delete wrote.
#[derive(Clone, Copy, Debug, PartialEq, Eq, Structural)]
pub struct DeleteResult {
    pub tombstones_written: u64,
}

/// What a compaction did.
#[derive(Clone, Copy, Debug, PartialEq, Eq, Structural)]
pub struct CompactionResult {
    pub bytes_reclaimed: u64,
    pub segments_retired: u64,
    pub segments_created: u64,
}

/// The answer to a query: ids and scores in matching order, and the
/// assurance level behind them.
#[derive(Clone, Debug)]
pub struct SearchResult {
    pub ids: Vec<u64>,
    pub scores: Vec<u64>,
    pub quality: ResponseQuality,
}

} // verus!
