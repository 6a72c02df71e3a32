//! The store runtime: the append-only log of segments, the current manifest,
//! copy-on-write mutations, compaction, queries and the store's lifecycle.
//!
//! Every mutation appends its data segments, then a witness segment (when
//! witness logging is on), then a manifest segment; the manifest segment is
//! the commit point. Reopening a file is described in the recovery module.
use crate::codec::{le_bytes, put_bytes, put_le, put_words, words_bytes};
use crate::compaction::{
    candidate_seq, compacted_segments, distinct_seqs, has_candidate, kept_segments,
    lemma_compaction_idempotent, lemma_dead_filter_subset, lemma_kept_distinct,
    lemma_no_candidate, lemma_no_candidate_kept, lemma_rewritten_dims, live_records,
    live_records_of, names_dead, plan_compaction, remaining_dead, rewritten_records, segs_view,
    settled_count, CompactionPlan, CompactionPolicy, StoredVecSegment, VecSegView,
};
use crate::error::RvfError;
use crate::manifest::{
    dead_words, lemma_manifest_round_trip, manifest_bytes, manifest_fits, DeadEntry, Manifest,
    ManifestModel,
};
use crate::options::{QualityPreference, ResponseQuality, RvfOptions, SearchResult};
use crate::recovery::{
    last_manifest, lemma_crash_recovery, lemma_file_bytes_push, lemma_ordered_len_stop,
    lemma_reopen_round_trip, log_ordered, no_manifest, ordered_len, ordered_prefix,
    recovered_manifest, SegView,
};
use crate::safety_net::{
    activates, scanned_match, selective_safety_net_scan, should_activate_safety_net, Candidate,
};
use crate::segment::{
    all_seg_ok, encode_segment, file_bytes_of, lemma_parse_ok, parse_segments, scan_segments,
    seg_ok, seg_views, segment_bytes, Segment, SegmentType,
};
use crate::vectors::{
    clone_record, codes_have_dim, decode_vec_payload, encode_vec_payload, encodes_records, l2_sq,
    vec_payload, VectorRecord,
};
use vstd::prelude::*;

verus! {

/// Most segments a store's file holds.
pub const MAX_SEGMENTS: usize = 0xFFFF_FFFF;


/// Lifecycle of a store.
#[derive(Clone, Copy, Debug, PartialEq, Eq, Structural)]
pub enum StoreState {
    Closed,
    Opening,
    Open,
    Closing,
}

/// Lifecycle events.
#[derive(Clone, Copy, Debug, PartialEq, Eq, Structural)]
pub enum LifecycleEvent {
    /// Opening starts: the file is being read and validated.
    Begin,
    /// The manifest and the segments it needs are validated.
    Validated,
    /// Closing starts.
    Shutdown,
    /// Everything is released.
    Released,
}

/// The lifecycle's transitions: `Closed -> Opening -> Open -> Closing -> Closed`.
pub open spec fn transition(s: StoreState, e: LifecycleEvent) -> Option<StoreState> {
    match (s, e) {
        (StoreState::Closed, LifecycleEvent::Begin) => Some(StoreState::Opening),
        (StoreState::Opening, LifecycleEvent::Validated) => Some(StoreState::Open),
        (StoreState::Open, LifecycleEvent::Shutdown) => Some(StoreState::Closing),
        (StoreState::Closing, LifecycleEvent::Released) => Some(StoreState::Closed),
        _ => None,
    }
}

/// The state after an event, if the event is allowed in the state.
pub fn next_state(s: StoreState, e: LifecycleEvent) -> (r: Option<StoreState>)
    ensures
        r == transition(s, e),
{
    match (s, e) {
        (StoreState::Closed, LifecycleEvent::Begin) => Some(StoreState::Opening),
        (StoreState::Opening, LifecycleEvent::Validated) => Some(StoreState::Open),
        (StoreState::Open, LifecycleEvent::Shutdown) => Some(StoreState::Closing),
        (StoreState::Closing, LifecycleEvent::Released) => Some(StoreState::Closed),
        _ => None,
    }
}

/// The advisory lock that the process holds on the store's file.
#[derive(Clone, Copy, Debug, PartialEq, Eq, Structural)]
pub enum LockState {
    Unlocked,
    /// A reader's lock: queries only.
    Shared,
    /// The single writer's lock.
    Exclusive,
}

/// The views of the segments of a log.
pub open spec fn log_view(log: Seq<Segment>) -> Seq<SegView> {
    seg_views(log)
}

/// The sequence numbers of vector segments.
pub open spec fn seqs_of(segs: Seq<VecSegView>) -> Seq<u64> {
    segs.map_values(|s: VecSegView| s.0)
}

/// Whether decoded vector segments agree with the log and the manifest: the
/// manifest names them in order, each is a vector segment of the log whose
/// payload encodes its records, their sequence numbers are distinct, and
/// every deletion entry names a segment of the log.
pub open spec fn vec_data_ok(log: Seq<SegView>, m: ManifestModel, segs: Seq<VecSegView>) -> bool {
    &&& m.vec_segments == seqs_of(segs)
    &&& forall|k: int|
        0 <= k < segs.len() ==> {
            let q = (#[trigger] segs[k]).0 as int;
            &&& q < log.len()
            &&& log[q].0.seg_type == SegmentType::Vec
            &&& log[q].1 == vec_payload(m.dim, segs[k].1)
            &&& codes_have_dim(segs[k].1, m.dim as nat)
        }
    &&& distinct_seqs(segs)
    &&& forall|i: int| 0 <= i < m.dead.len() ==> (#[trigger] m.dead[i]).segment < log.len()
}

/// A store: the segments of its file, the current manifest, and the decoded
/// contents of the vector segments the manifest names.
pub struct RvfStore {
    pub options: RvfOptions,
    pub state: StoreState,
    pub lock: LockState,
    /// Every segment of the file, in write order.
    pub log: Vec<Segment>,
    /// The current manifest: the root pointer of the store.
    pub manifest: Manifest,
    /// The records of each live vector segment, in the manifest's order.
    pub vec_data: Vec<StoredVecSegment>,
    /// Sequence number of the last witness segment, if any.
    pub last_witness: Option<u64>,
    /// Every manifest committed since the store was opened, in order.
    pub history: Ghost<Seq<ManifestModel>>,
}

impl RvfStore {
    /// The store's invariant.
    pub open spec fn wf(&self) -> bool {
        let log = log_view(self.log@);
        let m = self.manifest@;
        &&& all_seg_ok(log)
        &&& log_ordered(log)
        &&& log.len() < MAX_SEGMENTS
        &&& last_manifest(log) == Some(m)
        &&& manifest_fits(m)
        &&& m.dim == self.options.dim
        &&& vec_data_ok(log, m, segs_view(self.vec_data@))
        &&& self.history@.len() > 0
        &&& self.history@.last() == m
    }

    /// The compaction policy of the store's options.
    pub open spec fn policy(&self) -> CompactionPolicy {
        CompactionPolicy {
            dead_permille: self.options.compaction_dead_permille,
            tombstone_threshold: self.options.compaction_tombstone_threshold,
        }
    }

    /// The bytes of the store's file.
    pub fn file_bytes(&self) -> (r: Vec<u8>)
        ensures
            r@ == file_bytes_of(log_view(self.log@)),
    {
        let mut out: Vec<u8> = Vec::new();
        let mut i: usize = 0;
        while i < self.log.len()
            invariant
                i <= self.log@.len(),
                out@ == file_bytes_of(log_view(self.log@.subrange(0, i as int))),
            decreases self.log@.len() - i,
        {
            proof {
                lemma_file_bytes_push(log_view(self.log@.subrange(0, i as int)), self.log@[i as int]@);
                assert(log_view(self.log@.subrange(0, i + 1)) =~= log_view(
                    self.log@.subrange(0, i as int),
                ).push(self.log@[i as int]@));
            }
            encode_segment(&mut out, &self.log[i]);
            i = i + 1;
        }
        assert(self.log@.subrange(0, self.log@.len() as int) =~= self.log@);
        out
    }

    /// A copy of the current manifest: a consistent snapshot that later
    /// mutations do not change.
    pub fn snapshot(&self) -> (r: Manifest)
        requires
            self.wf(),
        ensures
            r@ == self.manifest@,
            self.history@.contains(r@),
    {
        assert(self.history@[self.history@.len() - 1] == self.manifest@);
        self.manifest.duplicate()
    }
}


/// Appends a valid segment whose sequence number is its position.
fn append_segment(log: &mut Vec<Segment>, seg_type: SegmentType, payload: Vec<u8>) -> (seq: u64)
    requires
        all_seg_ok(log_view(old(log)@)),
        log_ordered(log_view(old(log)@)),
        old(log)@.len() < MAX_SEGMENTS,
    ensures
        seq == old(log)@.len(),
        final(log)@.len() == old(log)@.len() + 1,
        log_view(final(log)@) == log_view(old(log)@).push(final(log)@[seq as int]@),
        final(log)@[seq as int].header.seg_type == seg_type,
        final(log)@[seq as int].payload@ == payload@,
        all_seg_ok(log_view(final(log)@)),
        log_ordered(log_view(final(log)@)),
{
    let seq = log.len() as u64;
    let seg = Segment::new(seg_type, seq, 0, payload);
    let ghost v = seg@;
    log.push(seg);
    assert(log_view(log@) =~= log_view(old(log)@).push(v));
    seq
}

/// Witness kind of an ingest.
pub const WITNESS_INGEST: u64 = 1;
/// Witness kind of a delete.
pub const WITNESS_DELETE: u64 = 2;
/// Witness kind of a compaction.
pub const WITNESS_COMPACT: u64 = 3;

/// A witness record: what mutation happened, the generation it produced,
/// how many segments it wrote and retired, and the sequence number of the
/// previous witness (all ones for the first), which chains the records.
pub open spec fn witness_words(kind: u64, generation: u64, created: u64, retired: u64, previous: u64) -> Seq<u64> {
    seq![kind, generation, created, retired, previous]
}

fn witness_payload(kind: u64, generation: u64, created: u64, retired: u64, previous: u64) -> (r: Vec<u8>)
    ensures
        r@ == words_bytes(witness_words(kind, generation, created, retired, previous)),
{
    let mut w: Vec<u64> = Vec::new();
    w.push(kind);
    w.push(generation);
    w.push(created);
    w.push(retired);
    w.push(previous);
    assert(w@ =~= witness_words(kind, generation, created, retired, previous));
    let mut out: Vec<u8> = Vec::new();
    put_words(&mut out, w.as_slice());
    assert(out@ =~= words_bytes(witness_words(kind, generation, created, retired, previous)));
    out
}

proof fn lemma_last_manifest_push_manifest(segs: Seq<SegView>, x: SegView, m: ManifestModel)
    requires
        x.0.seg_type == SegmentType::Manifest,
        x.1 == manifest_bytes(m),
        manifest_fits(m),
    ensures
        last_manifest(segs.push(x)) == Some(m),
{
    lemma_manifest_round_trip(m);
    assert(segs.push(x).last() == x);
}

/// Whether a log ends with a committed mutation of manifest `m`: a witness
/// segment when `witnessed`, then the manifest segment that encodes `m`.
pub open spec fn ends_with_commit(log: Seq<SegView>, m: ManifestModel, witnessed: bool) -> bool {
    &&& log.len() >= 2
    &&& witnessed ==> log[log.len() - 2].0.seg_type == SegmentType::Witness
    &&& log[log.len() - 1].0.seg_type == SegmentType::Manifest
    &&& log[log.len() - 1].1 == manifest_bytes(m)
}

/// The number of segments a commit appends: the manifest, and a witness when
/// witness logging is on.
pub open spec fn commit_segments(o: RvfOptions) -> nat {
    if o.witness.enabled {
        2
    } else {
        1
    }
}

impl RvfStore {
    /// Whether two states of a store hold the same data.
    pub open spec fn same_data(&self, other: &RvfStore) -> bool {
        &&& log_view(self.log@) == log_view(other.log@)
        &&& self.manifest@ == other.manifest@
        &&& segs_view(self.vec_data@) == segs_view(other.vec_data@)
        &&& self.history@ == other.history@
        &&& self.options == other.options
        &&& self.state == other.state
        &&& self.lock == other.lock
    }

    /// Commits a mutation: appends a witness segment, when witness logging is
    /// on, and then the manifest segment of `m`, which becomes current.
    fn commit(&mut self, m: Manifest, kind: u64, created: u64, retired: u64)
        requires
            all_seg_ok(log_view(old(self).log@)),
            log_ordered(log_view(old(self).log@)),
            old(self).log@.len() + 2 < MAX_SEGMENTS,
            manifest_fits(m@),
            m@.dim == old(self).options.dim,
            vec_data_ok(log_view(old(self).log@), m@, segs_view(old(self).vec_data@)),
            old(self).history@.len() > 0,
        ensures
            final(self).wf(),
            final(self).manifest@ == m@,
            segs_view(final(self).vec_data@) == segs_view(old(self).vec_data@),
            final(self).history@ == old(self).history@.push(m@),
            final(self).log@.len() == old(self).log@.len() + commit_segments(old(self).options),
            log_view(final(self).log@).subrange(0, old(self).log@.len() as int) == log_view(
                old(self).log@,
            ),
            old(self).log@.len() >= 1 ==> ends_with_commit(
                log_view(final(self).log@),
                m@,
                old(self).options.witness.enabled,
            ),
            old(self).options.witness.enabled ==> final(self).log@[old(self).log@.len() as int].payload@ == words_bytes(
                witness_words(
                    kind,
                    m@.generation,
                    created,
                    retired,
                    match old(self).last_witness {
                        Some(w) => w,
                        None => u64::MAX,
                    },
                ),
            ),
            final(self).options == old(self).options,
            final(self).state == old(self).state,
            final(self).lock == old(self).lock,
    {
        let previous = match self.last_witness {
            Some(w) => w,
            None => u64::MAX,
        };
        let ghost log0 = log_view(self.log@);
        if self.options.witness.enabled {
            let wp = witness_payload(kind, m.generation, created, retired, previous);
            let wseq = append_segment(&mut self.log, SegmentType::Witness, wp);
            self.last_witness = Some(wseq);
        }
        let ghost log1 = log_view(self.log@);
        let ghost wit = words_bytes(witness_words(kind, m@.generation, created, retired, previous));
        assert(self.options.witness.enabled ==> log1[log0.len() as int].1 == wit);
        let mp = m.encode();
        let mseq = append_segment(&mut self.log, SegmentType::Manifest, mp);
        let ghost log2 = log_view(self.log@);
        proof {
            lemma_last_manifest_push_manifest(log1, self.log@[mseq as int]@, m@);
            let segs = segs_view(self.vec_data@);
            assert forall|k: int| 0 <= k < segs.len() implies {
                let q = (#[trigger] segs[k]).0 as int;
                &&& q < log2.len()
                &&& log2[q].0.seg_type == SegmentType::Vec
                &&& log2[q].1 == vec_payload(m@.dim, segs[k].1)
                &&& codes_have_dim(segs[k].1, m@.dim as nat)
            } by {
                let q = segs[k].0 as int;
                assert(log2[q] == log1[q]);
                assert(log1[q] == log0[q]);
            }
            assert(log2.subrange(0, log0.len() as int) =~= log0);
            assert(log2.subrange(0, log1.len() as int) =~= log1);
            if self.options.witness.enabled {
                assert(log2[log0.len() as int] == log1[log0.len() as int]);
                assert(self.log@[log0.len() as int].payload@ == wit);
            }
        }
        self.manifest = m;
        self.history = Ghost(self.history@.push(self.manifest@));
    }

    /// A new, empty store whose file holds one manifest segment. The store is
    /// open, and this process is its writer.
    pub fn create(options: RvfOptions) -> (r: RvfStore)
        ensures
            r.wf(),
            r.options == options,
            r.state == StoreState::Open,
            r.lock == LockState::Exclusive,
            r.manifest@.generation == 0,
            r.manifest@.vec_segments.len() == 0,
            r.manifest@.dead.len() == 0,
            r.log@.len() == 1,
    {
        let m = Manifest::empty(options.dim);
        let mut log: Vec<Segment> = Vec::new();
        let mp = m.encode();
        proof {
            assert(all_seg_ok(log_view(log@)));
            assert(log_ordered(log_view(log@)));
        }
        let seq = append_segment(&mut log, SegmentType::Manifest, mp);
        proof {
            lemma_last_manifest_push_manifest(log_view(Seq::<Segment>::empty()), log@[0]@, m@);
            assert(log_view(log@) =~= log_view(Seq::<Segment>::empty()).push(log@[0]@));
            assert(seqs_of(segs_view(Seq::<StoredVecSegment>::empty())) =~= m@.vec_segments);
        }
        let ghost h = seq![m@];
        RvfStore {
            options,
            state: StoreState::Open,
            lock: LockState::Exclusive,
            log,
            manifest: m,
            vec_data: Vec::new(),
            last_witness: None,
            history: Ghost(h),
        }
    }
}


/// Whether every code has the store's dimension.
pub open spec fn dims_match(records: Seq<VectorRecord>, dim: u32) -> bool {
    forall|i: int| 0 <= i < records.len() ==> (#[trigger] records[i]).code@.len() == dim
}

/// The number of metadata segments an ingest writes for `metadata`.
pub open spec fn meta_segments(metadata: Seq<u8>) -> nat {
    if metadata.len() > 0 {
        1
    } else {
        0
    }
}

/// The payload of a metadata segment: the sequence number of the vector
/// segment it describes, then the caller's metadata bytes.
pub open spec fn metadata_payload(seq: u64, metadata: Seq<u8>) -> Seq<u8> {
    le_bytes(seq as nat, 8) + metadata
}

/// The size of the file that holds `log`.
pub open spec fn file_size(log: Seq<SegView>) -> nat {
    file_bytes_of(log).len()
}

/// `x`, or `u64::MAX` if it does not fit.
pub open spec fn clamp_u64(x: int) -> u64 {
    if x > u64::MAX {
        u64::MAX
    } else {
        x as u64
    }
}

/// The number of bytes that the segments from position `from` on add to the file.
fn appended_bytes(log: &Vec<Segment>, from: usize) -> (r: u64)
    requires
        from <= log@.len(),
    ensures
        r == clamp_u64(file_size(log_view(log@)) - file_size(log_view(log@).subrange(0, from as int))),
{
    let ghost lv = log_view(log@);
    let mut total: u64 = 0;
    let mut i: usize = from;
    proof {
        assert(lv.subrange(0, from as int) =~= lv.subrange(0, from as int));
    }
    while i < log.len()
        invariant
            from <= i <= log@.len(),
            lv == log_view(log@),
            file_size(lv.subrange(0, i as int)) >= file_size(lv.subrange(0, from as int)),
            total == clamp_u64(file_size(lv.subrange(0, i as int)) - file_size(lv.subrange(0, from as int))),
        decreases log@.len() - i,
    {
        proof {
            lemma_file_bytes_push(lv.subrange(0, i as int), lv[i as int]);
            assert(lv.subrange(0, i + 1) =~= lv.subrange(0, i as int).push(lv[i as int]));
            crate::segment::lemma_header_bytes_len(lv[i as int].0);
        }
        let n = log[i].payload.len() as u64;
        total = total.saturating_add(n.saturating_add(32));
        i = i + 1;
    }
    assert(lv.subrange(0, log@.len() as int) =~= lv);
    total
}

/// The position of the first code whose length is not `dim`, if any.
fn first_dim_mismatch(records: &Vec<VectorRecord>, dim: u32) -> (r: Option<usize>)
    ensures
        r is None <==> dims_match(records@, dim),
        r matches Some(i) ==> i < records@.len() && records@[i as int].code@.len() != dim,
{
    let mut i: usize = 0;
    while i < records.len()
        invariant
            i <= records@.len(),
            forall|j: int| 0 <= j < i ==> (#[trigger] records@[j]).code@.len() == dim,
        decreases records@.len() - i,
    {
        if records[i].code.len() != dim as usize {
            return Some(i);
        }
        i = i + 1;
    }
    None
}

impl RvfStore {
    /// Whether an ingest has room: segments in the file, vector segments in
    /// the manifest, and generations.
    pub open spec fn has_room(&self) -> bool {
        &&& self.log@.len() + 4 < MAX_SEGMENTS
        &&& self.manifest@.vec_segments.len() + 1 < u32::MAX
        &&& self.manifest@.generation < u64::MAX
    }

    /// Appends the vectors as one vector segment, and the metadata (when
    /// there is any) as a metadata segment that names it, then commits a
    /// manifest that names the vector segment. Fails, changing nothing, when
    /// the store is not open, this process is not the writer, a code has the
    /// wrong dimension, or the store is full.
    pub fn ingest(&mut self, records: Vec<VectorRecord>, metadata: &[u8]) -> (r: Result<crate::options::IngestResult, RvfError>)
        requires
            old(self).wf(),
        ensures
            final(self).wf(),
            r is Err ==> final(self).same_data(old(self)),
            old(self).state != StoreState::Open ==> r == Err::<crate::options::IngestResult, RvfError>(RvfError::InvalidState),
            old(self).state == StoreState::Open && old(self).lock != LockState::Exclusive ==> r
                == Err::<crate::options::IngestResult, RvfError>(RvfError::LockContention),
            old(self).state == StoreState::Open && old(self).lock == LockState::Exclusive
                && !dims_match(records@, old(self).options.dim) ==> r matches Err(
                RvfError::DimensionMismatch { .. },
            ),
            old(self).state == StoreState::Open && old(self).lock == LockState::Exclusive
                && dims_match(records@, old(self).options.dim) && !old(self).has_room() ==> r
                == Err::<crate::options::IngestResult, RvfError>(RvfError::CapacityExceeded),
            old(self).state == StoreState::Open && old(self).lock == LockState::Exclusive
                && dims_match(records@, old(self).options.dim) && old(self).has_room() ==> r is Ok,
            r is Ok ==> {
                &&& final(self).manifest@ == (ManifestModel {
                    generation: (old(self).manifest@.generation + 1) as u64,
                    vec_segments: old(self).manifest@.vec_segments.push(old(self).log@.len() as u64),
                    ..old(self).manifest@
                })
                &&& segs_view(final(self).vec_data@) == segs_view(old(self).vec_data@).push(
                    (old(self).log@.len() as u64, records@.map_values(|x: VectorRecord| x@)),
                )
                &&& final(self).history@ == old(self).history@.push(final(self).manifest@)
                &&& log_view(final(self).log@).subrange(0, old(self).log@.len() as int) == log_view(old(self).log@)
                &&& ends_with_commit(log_view(final(self).log@), final(self).manifest@, old(self).options.witness.enabled)
                &&& final(self).log@.len() == old(self).log@.len() + 1 + meta_segments(metadata@) + commit_segments(old(self).options)
                &&& final(self).log@[old(self).log@.len() as int].header.seg_type == SegmentType::Vec
                &&& metadata@.len() > 0 ==> final(self).log@[old(self).log@.len() as int + 1].header.seg_type == SegmentType::Meta
                    && final(self).log@[old(self).log@.len() as int + 1].payload@ == metadata_payload(old(self).log@.len() as u64, metadata@)
                &&& r->Ok_0.segments_written == 1 + meta_segments(metadata@) + commit_segments(old(self).options)
                &&& r->Ok_0.bytes_written == clamp_u64(file_size(log_view(final(self).log@)) - file_size(log_view(old(self).log@)))
            },
            final(self).options == old(self).options,
            final(self).state == old(self).state,
            final(self).lock == old(self).lock,
    {
        if self.state != StoreState::Open {
            return Err(RvfError::InvalidState);
        }
        if self.lock != LockState::Exclusive {
            return Err(RvfError::LockContention);
        }
        let dim = self.options.dim;
        match first_dim_mismatch(&records, dim) {
            Some(i) => {
                return Err(RvfError::DimensionMismatch { expected: dim, got: records[i].code.len() });
            },
            None => {},
        }
        if self.log.len() >= MAX_SEGMENTS - 4 || self.manifest.vec_segments.len()
            >= u32::MAX as usize - 1 || self.manifest.generation == u64::MAX {
            return Err(RvfError::CapacityExceeded);
        }
        let old_len = self.log.len();
        let ghost log0 = log_view(self.log@);
        let ghost rv = records@.map_values(|x: VectorRecord| x@);
        let payload = encode_vec_payload(dim, records.as_slice());
        let seq = append_segment(&mut self.log, SegmentType::Vec, payload);
        let ghost log1 = log_view(self.log@);
        let ghost segs0 = segs_view(self.vec_data@);
        self.vec_data.push(StoredVecSegment { seq, records });
        let mut m = self.manifest.duplicate();
        m.generation = m.generation + 1;
        m.vec_segments.push(seq);
        proof {
            let segs1 = segs_view(self.vec_data@);
            assert(segs1 =~= segs0.push((seq, rv)));
            assert(codes_have_dim(rv, dim as nat)) by {
                assert forall|j: int| 0 <= j < rv.len() implies (#[trigger] rv[j]).1.len() == dim by {
                    assert(rv[j] == records@[j]@);
                }
            }
            assert(seqs_of(segs1) =~= m@.vec_segments);
            assert forall|k: int| 0 <= k < segs1.len() implies {
                let q = (#[trigger] segs1[k]).0 as int;
                &&& q < log1.len()
                &&& log1[q].0.seg_type == SegmentType::Vec
                &&& log1[q].1 == vec_payload(m@.dim, segs1[k].1)
                &&& codes_have_dim(segs1[k].1, m@.dim as nat)
            } by {
                if k < segs0.len() {
                    assert(segs1[k] == segs0[k]);
                    assert(log1[segs0[k].0 as int] == log0[segs0[k].0 as int]);
                }
            }
            assert(distinct_seqs(segs1)) by {
                assert forall|a: int, b: int| 0 <= a < b < segs1.len() implies (#[trigger] segs1[a]).0
                    != (#[trigger] segs1[b]).0 by {
                    if b < segs0.len() {
                        assert(segs1[a] == segs0[a] && segs1[b] == segs0[b]);
                    } else {
                        assert(segs1[a] == segs0[a]);
                    }
                }
            }
            assert(vec_data_ok(log1, m@, segs1));
        }
        let ghost vec_type = self.log@[seq as int].header.seg_type;
        assert(log1[seq as int].0.seg_type == vec_type);
        let mut written: u64 = 1;
        if metadata.len() > 0 {
            let mut mp: Vec<u8> = Vec::new();
            put_le(&mut mp, seq, 8);
            put_bytes(&mut mp, metadata);
            let _mseq = append_segment(&mut self.log, SegmentType::Meta, mp);
            written = 2;
        }
        let ghost log2 = log_view(self.log@);
        let ghost meta_view = if metadata@.len() > 0 { log2[old_len + 1] } else { log1[0] };
        proof {
            assert(log2.subrange(0, log1.len() as int) =~= log1);
            let segs1 = segs_view(self.vec_data@);
            assert forall|k: int| 0 <= k < segs1.len() implies {
                let q = (#[trigger] segs1[k]).0 as int;
                &&& q < log2.len()
                &&& log2[q].0.seg_type == SegmentType::Vec
                &&& log2[q].1 == vec_payload(m@.dim, segs1[k].1)
                &&& codes_have_dim(segs1[k].1, m@.dim as nat)
            } by {
                let q = segs1[k].0 as int;
                assert(log2.subrange(0, log1.len() as int)[q] == log2[q]);
            }
            assert(log2[seq as int] == log1[seq as int]);
        }
        self.commit(m, WITNESS_INGEST, written, 0);
        proof {
            let lf = log_view(self.log@);
            assert(lf.subrange(0, log2.len() as int)[seq as int] == lf[seq as int]);
            assert(self.log@[seq as int].header.seg_type == vec_type);
            assert(lf.subrange(0, old_len as int) =~= log0) by {
                assert(lf.subrange(0, old_len as int) =~= lf.subrange(0, log2.len() as int).subrange(0, old_len as int));
            }
            if metadata@.len() > 0 {
                assert(lf.subrange(0, log2.len() as int)[old_len + 1] == lf[old_len + 1]);
                assert(self.log@[old_len + 1]@ == meta_view);
            }
        }
        let bytes_written = appended_bytes(&self.log, old_len);
        let segments_written: u64 = if self.options.witness.enabled { written + 2 } else { written + 1 };
        Ok(crate::options::IngestResult { segments_written, bytes_written })
    }
}


/// The deletion entries that deleting `ids` adds for one segment: each of
/// its records whose id is asked for and that is not yet dead.
pub open spec fn deletions_in(seq: u64, recs: Seq<(u64, Seq<u8>)>, dead: Seq<DeadEntry>, ids: Seq<u64>) -> Seq<DeadEntry>
    decreases recs.len(),
{
    if recs.len() == 0 {
        Seq::empty()
    } else {
        let rest = deletions_in(seq, recs.drop_last(), dead, ids);
        let e = DeadEntry { segment: seq, id: recs.last().0 };
        if ids.contains(e.id) && !dead.contains(e) {
            rest.push(e)
        } else {
            rest
        }
    }
}

/// The deletion entries that deleting `ids` adds, segment by segment.
pub open spec fn deletions(segs: Seq<VecSegView>, dead: Seq<DeadEntry>, ids: Seq<u64>) -> Seq<DeadEntry>
    decreases segs.len(),
{
    if segs.len() == 0 {
        Seq::empty()
    } else {
        deletions(segs.drop_last(), dead, ids) + deletions_in(segs.last().0, segs.last().1, dead, ids)
    }
}

fn slice_contains(ids: &[u64], x: u64) -> (r: bool)
    ensures
        r == ids@.contains(x),
{
    let mut j: usize = 0;
    while j < ids.len()
        invariant
            j <= ids@.len(),
            forall|w: int| 0 <= w < j ==> ids@[w] != x,
        decreases ids@.len() - j,
    {
        if ids[j] == x {
            assert(ids@[j as int] == x);
            return true;
        }
        j = j + 1;
    }
    false
}

fn collect_deletions(s: &StoredVecSegment, dead: &Vec<DeadEntry>, ids: &[u64], out: &mut Vec<DeadEntry>)
    ensures
        final(out)@ == old(out)@ + deletions_in(s.seq, s@.1, dead@, ids@),
        forall|i: int| old(out)@.len() <= i < final(out)@.len() ==> (#[trigger] final(out)@[i]).segment == s.seq,
{
    let ghost rv = s@.1;
    let ghost start = out@;
    let mut i: usize = 0;
    while i < s.records.len()
        invariant
            i <= s.records@.len(),
            rv == s.records@.map_values(|x: VectorRecord| x@),
            out@ == start + deletions_in(s.seq, rv.subrange(0, i as int), dead@, ids@),
            forall|j: int| start.len() <= j < out@.len() ==> (#[trigger] out@[j]).segment == s.seq,
        decreases s.records@.len() - i,
    {
        assert(rv.subrange(0, i + 1).drop_last() =~= rv.subrange(0, i as int));
        assert(rv.subrange(0, i + 1).last() == s.records@[i as int]@);
        let id = s.records[i].id;
        let ghost before = out@;
        if slice_contains(ids, id) && !names_dead(dead, s.seq, id) {
            out.push(DeadEntry { segment: s.seq, id });
            assert(out@ =~= start + deletions_in(s.seq, rv.subrange(0, i + 1), dead@, ids@));
        } else {
            assert(out@ =~= start + deletions_in(s.seq, rv.subrange(0, i + 1), dead@, ids@));
        }
        i = i + 1;
    }
    assert(rv.subrange(0, rv.len() as int) =~= rv);
}

fn dead_entries_payload(entries: &Vec<DeadEntry>) -> (r: Vec<u8>)
    ensures
        r@ == words_bytes(dead_words(entries@)),
{
    let mut w: Vec<u64> = Vec::new();
    let mut j: usize = 0;
    while j < entries.len()
        invariant
            j <= entries@.len(),
            w@ == dead_words(entries@.subrange(0, j as int)),
        decreases entries@.len() - j,
    {
        let e = entries[j];
        w.push(e.segment);
        w.push(e.id);
        j = j + 1;
        proof {
            let d = entries@.subrange(0, j as int);
            assert forall|k: int| 0 <= k < 2 * j implies #[trigger] dead_words(d)[k] == w@[k] by {
                if k < 2 * (j - 1) {
                    assert(dead_words(entries@.subrange(0, j - 1))[k] == w@[k]);
                }
            }
            assert(w@ =~= dead_words(d));
        }
    }
    assert(entries@.subrange(0, entries@.len() as int) =~= entries@);
    let mut out: Vec<u8> = Vec::new();
    put_words(&mut out, w.as_slice());
    out
}

impl RvfStore {
    /// Marks as deleted every live vector whose id is in `ids`: appends a
    /// tombstone segment naming them, then commits a manifest that lists them
    /// as dead. When none of the ids is live, nothing is written.
    pub fn delete(&mut self, ids: &[u64]) -> (r: Result<crate::options::DeleteResult, RvfError>)
        requires
            old(self).wf(),
        ensures
            final(self).wf(),
            r is Err ==> final(self).same_data(old(self)),
            old(self).state != StoreState::Open ==> r == Err::<crate::options::DeleteResult, RvfError>(RvfError::InvalidState),
            old(self).state == StoreState::Open && old(self).lock != LockState::Exclusive ==> r
                == Err::<crate::options::DeleteResult, RvfError>(RvfError::LockContention),
            r is Ok ==> {
                let new = deletions(segs_view(old(self).vec_data@), old(self).manifest@.dead, ids@);
                &&& r->Ok_0.tombstones_written == new.len()
                &&& final(self).log@.len() <= old(self).log@.len() + 3
                &&& final(self).manifest@.generation <= old(self).manifest@.generation + 1
                &&& final(self).manifest@.vec_segments == old(self).manifest@.vec_segments
                &&& final(self).manifest@.dead == old(self).manifest@.dead + new
                &&& old(self).history@.is_prefix_of(final(self).history@)
                &&& new.len() == 0 ==> final(self).same_data(old(self))
                &&& new.len() > 0 ==> final(self).manifest@ == (ManifestModel {
                    generation: (old(self).manifest@.generation + 1) as u64,
                    dead: old(self).manifest@.dead + new,
                    ..old(self).manifest@
                }) && final(self).history@ == old(self).history@.push(final(self).manifest@)
                    && segs_view(final(self).vec_data@) == segs_view(old(self).vec_data@)
                    && log_view(final(self).log@).subrange(0, old(self).log@.len() as int) == log_view(old(self).log@)
                    && ends_with_commit(log_view(final(self).log@), final(self).manifest@, old(self).options.witness.enabled)
                    && final(self).log@[old(self).log@.len() as int].header.seg_type == SegmentType::Tombstone
            },
            old(self).state == StoreState::Open && old(self).lock == LockState::Exclusive
                && old(self).log@.len() + 3 < MAX_SEGMENTS && old(self).manifest@.generation < u64::MAX
                && old(self).manifest@.dead.len() + deletions(segs_view(old(self).vec_data@), old(self).manifest@.dead, ids@).len() < u32::MAX
                ==> r is Ok,
            final(self).options == old(self).options,
            final(self).state == old(self).state,
            final(self).lock == old(self).lock,
    {
        if self.state != StoreState::Open {
            return Err(RvfError::InvalidState);
        }
        if self.lock != LockState::Exclusive {
            return Err(RvfError::LockContention);
        }
        let ghost segs = segs_view(self.vec_data@);
        let ghost log0 = log_view(self.log@);
        let mut new: Vec<DeadEntry> = Vec::new();
        let mut k: usize = 0;
        while k < self.vec_data.len()
            invariant
                k <= self.vec_data@.len(),
                segs == segs_view(self.vec_data@),
                log0 == log_view(self.log@),
                vec_data_ok(log0, self.manifest@, segs),
                new@ == deletions(segs.subrange(0, k as int), self.manifest@.dead, ids@),
                forall|i: int| 0 <= i < new@.len() ==> (#[trigger] new@[i]).segment < log0.len(),
            decreases self.vec_data@.len() - k,
        {
            assert(segs.subrange(0, k + 1).drop_last() =~= segs.subrange(0, k as int));
            assert(segs.subrange(0, k + 1).last() == self.vec_data@[k as int]@);
            let ghost before = new@;
            collect_deletions(&self.vec_data[k], &self.manifest.dead, ids, &mut new);
            proof {
                assert(segs[k as int] == self.vec_data@[k as int]@);
                assert forall|i: int| 0 <= i < new@.len() implies (#[trigger] new@[i]).segment < log0.len() by {
                    if i >= before.len() {
                        assert(new@[i].segment == segs[k as int].0);
                    } else {
                        assert(new@[i] == before[i]);
                    }
                }
            }
            k = k + 1;
        }
        assert(segs.subrange(0, segs.len() as int) =~= segs);
        if new.len() == 0 {
            return Ok(crate::options::DeleteResult { tombstones_written: 0 });
        }
        if self.log.len() >= MAX_SEGMENTS - 3 || self.manifest.generation == u64::MAX
            || new.len() >= u32::MAX as usize || self.manifest.dead.len() >= u32::MAX as usize
            - new.len() {
            return Err(RvfError::CapacityExceeded);
        }
        let count = new.len() as u64;
        let payload = dead_entries_payload(&new);
        let tseq = append_segment(&mut self.log, SegmentType::Tombstone, payload);
        let ghost log1 = log_view(self.log@);
        let ghost t_type = self.log@[tseq as int].header.seg_type;
        assert(log1[tseq as int].0.seg_type == t_type);
        let mut m = self.manifest.duplicate();
        m.generation = m.generation + 1;
        let mut i: usize = 0;
        let ghost d0 = m.dead@;
        while i < new.len()
            invariant
                i <= new@.len(),
                m.dead@ == d0 + new@.subrange(0, i as int),
                m.generation == self.manifest@.generation + 1,
                m.vec_segments@ == self.manifest@.vec_segments,
                m.dim == self.manifest@.dim,
                m.pointers == self.manifest@.pointers,
            decreases new@.len() - i,
        {
            m.dead.push(new[i]);
            i = i + 1;
            assert(m.dead@ =~= d0 + new@.subrange(0, i as int));
        }
        assert(new@.subrange(0, new@.len() as int) =~= new@);
        proof {
            assert forall|k: int| 0 <= k < segs.len() implies {
                let q = (#[trigger] segs[k]).0 as int;
                &&& q < log1.len()
                &&& log1[q].0.seg_type == SegmentType::Vec
                &&& log1[q].1 == vec_payload(m@.dim, segs[k].1)
                &&& codes_have_dim(segs[k].1, m@.dim as nat)
            } by {
                assert(log1[segs[k].0 as int] == log0[segs[k].0 as int]);
            }
            assert forall|i: int| 0 <= i < m@.dead.len() implies (#[trigger] m@.dead[i]).segment < log1.len() by {
                if i < d0.len() {
                    assert(m@.dead[i] == d0[i]);
                } else {
                    assert(m@.dead[i] == new@[i - d0.len()]);
                }
            }
        }
        self.commit(m, WITNESS_DELETE, 1, 0);
        proof {
            let lf = log_view(self.log@);
            assert(lf.subrange(0, log1.len() as int)[tseq as int] == lf[tseq as int]);
            assert(self.log@[tseq as int].header.seg_type == t_type);
            assert(lf.subrange(0, log0.len() as int) =~= lf.subrange(0, log1.len() as int).subrange(0, log0.len() as int));
        }
        Ok(crate::options::DeleteResult { tombstones_written: count })
    }
}


impl RvfStore {
    /// Rewrites the live vectors of every compaction candidate into one
    /// fresh vector segment, retires the candidates and settles their
    /// deletion entries; the manifest swap is a commit like any mutation.
    /// Without candidates nothing is written.
    pub fn compact(&mut self) -> (r: Result<crate::options::CompactionResult, RvfError>)
        requires
            old(self).wf(),
        ensures
            final(self).wf(),
            r is Err ==> final(self).same_data(old(self)),
            old(self).state != StoreState::Open ==> r == Err::<crate::options::CompactionResult, RvfError>(RvfError::InvalidState),
            old(self).state == StoreState::Open && old(self).lock != LockState::Exclusive ==> r
                == Err::<crate::options::CompactionResult, RvfError>(RvfError::LockContention),
            old(self).state == StoreState::Open && old(self).lock == LockState::Exclusive
                && old(self).log@.len() + 3 < MAX_SEGMENTS && old(self).manifest@.generation < u64::MAX ==> r is Ok,
            r is Ok ==> {
                let p = old(self).policy();
                let segs = segs_view(old(self).vec_data@);
                let dead = old(self).manifest@.dead;
                &&& r->Ok_0.bytes_reclaimed == clamp_u64(settled_count(p, segs, dead) * (8 + old(self).options.dim))
                &&& r->Ok_0.segments_retired == segs.len() - kept_segments(p, segs, dead).len()
                &&& r->Ok_0.segments_created == if rewritten_records(p, segs, dead).len() == 0 { 0u64 } else { 1u64 }
                &&& !has_candidate(p, segs, dead) ==> final(self).same_data(old(self))
                    && r->Ok_0.bytes_reclaimed == 0 && r->Ok_0.segments_retired == 0
                &&& has_candidate(p, segs, dead) ==> segs_view(final(self).vec_data@)
                    == compacted_segments(p, segs, dead, old(self).log@.len() as u64)
                    && final(self).manifest@.dead == remaining_dead(p, segs, dead)
                    && final(self).manifest@.generation == old(self).manifest@.generation + 1
                    && final(self).history@ == old(self).history@.push(final(self).manifest@)
                    && log_view(final(self).log@).subrange(0, old(self).log@.len() as int) == log_view(old(self).log@)
                    && ends_with_commit(log_view(final(self).log@), final(self).manifest@, old(self).options.witness.enabled)
            },
            final(self).options == old(self).options,
            final(self).state == old(self).state,
            final(self).lock == old(self).lock,
    {
        if self.state != StoreState::Open {
            return Err(RvfError::InvalidState);
        }
        if self.lock != LockState::Exclusive {
            return Err(RvfError::LockContention);
        }
        let policy = CompactionPolicy {
            dead_permille: self.options.compaction_dead_permille,
            tombstone_threshold: self.options.compaction_tombstone_threshold,
        };
        let ghost segs = segs_view(self.vec_data@);
        let ghost dead = self.manifest@.dead;
        let ghost log0 = log_view(self.log@);
        let plan = plan_compaction(policy, &self.vec_data, &self.manifest.dead);
        proof {
            lemma_kept_distinct(policy, segs, dead);
            lemma_dead_filter_subset(dead, |e: DeadEntry| !candidate_seq(policy, segs, dead, e.segment));
        }
        if plan.retired == 0 {
            proof {
                lemma_no_candidate(policy, segs, dead);
            }
            return Ok(crate::options::CompactionResult { bytes_reclaimed: 0, segments_retired: 0, segments_created: 0 });
        }
        if self.log.len() >= MAX_SEGMENTS - 3 || self.manifest.generation == u64::MAX {
            return Err(RvfError::CapacityExceeded);
        }
        proof {
            if !has_candidate(policy, segs, dead) {
                lemma_no_candidate_kept(policy, segs, dead);
            }
        }
        proof {
            crate::compaction::lemma_dead_filter_len(dead, |e: DeadEntry| !candidate_seq(policy, segs, dead, e.segment));
        }
        let settled = self.manifest.dead.len() - plan.remaining.len();
        let dim = self.options.dim;
        let CompactionPlan { kept, rewritten, remaining, retired } = plan;
        let ghost kept_v = segs_view(kept@);
        let ghost rw = rewritten@.map_values(|x: VectorRecord| x@);
        let mut vec_data = kept;
        let mut created: u64 = 0;
        proof {
            lemma_rewritten_dims(policy, segs, dead, dim as nat);
        }
        if rewritten.len() > 0 {
            let payload = encode_vec_payload(dim, rewritten.as_slice());
            let seq = append_segment(&mut self.log, SegmentType::Vec, payload);
            vec_data.push(StoredVecSegment { seq, records: rewritten });
            created = 1;
        }
        let ghost log1 = log_view(self.log@);
        let ghost vd = segs_view(vec_data@);
        proof {
            if rw.len() > 0 {
                assert(vd =~= kept_v.push((log0.len() as u64, rw)));
            } else {
                assert(vd =~= kept_v);
            }
            assert(vd == compacted_segments(policy, segs, dead, log0.len() as u64));
        }
        let mut m = self.manifest.duplicate();
        m.generation = m.generation + 1;
        let mut seqs: Vec<u64> = Vec::new();
        let mut k: usize = 0;
        while k < vec_data.len()
            invariant
                k <= vec_data@.len(),
                vd == segs_view(vec_data@),
                seqs@ =~= seqs_of(vd).subrange(0, k as int),
            decreases vec_data@.len() - k,
        {
            seqs.push(vec_data[k].seq);
            k = k + 1;
        }
        assert(seqs_of(vd).subrange(0, vd.len() as int) =~= seqs_of(vd));
        m.vec_segments = seqs;
        m.dead = remaining;
        proof {
            assert forall|k: int| 0 <= k < vd.len() implies {
                let q = (#[trigger] vd[k]).0 as int;
                &&& q < log1.len()
                &&& log1[q].0.seg_type == SegmentType::Vec
                &&& log1[q].1 == vec_payload(m@.dim, vd[k].1)
                &&& codes_have_dim(vd[k].1, m@.dim as nat)
            } by {
                if k < kept_v.len() {
                    assert(vd[k] == kept_v[k]);
                    assert(segs.contains(kept_v[k]));
                    let j = choose|j: int| 0 <= j < segs.len() && segs[j] == kept_v[k];
                    assert(log1[segs[j].0 as int] == log0[segs[j].0 as int]);
                }
            }
            assert(distinct_seqs(vd)) by {
                assert forall|a: int, b: int| 0 <= a < b < vd.len() implies (#[trigger] vd[a]).0 != (#[trigger] vd[b]).0 by {
                    if b < kept_v.len() {
                        assert(vd[a] == kept_v[a] && vd[b] == kept_v[b]);
                    } else {
                        assert(vd[a] == kept_v[a]);
                        assert(segs.contains(kept_v[a]));
                    }
                }
            }
            assert forall|i: int| 0 <= i < m@.dead.len() implies (#[trigger] m@.dead[i]).segment < log1.len() by {
                assert(dead.contains(m@.dead[i]));
            }
            assert(m@.vec_segments =~= seqs_of(vd));
        }
        self.vec_data = vec_data;
        self.commit(m, WITNESS_COMPACT, created, retired);
        proof {
            let lf = log_view(self.log@);
            assert(lf.subrange(0, log0.len() as int) =~= lf.subrange(0, log1.len() as int).subrange(0, log0.len() as int));
        }
        let unit: u64 = 8 + dim as u64;
        assert((settled as int) * (unit as int) <= 0xFFFF_FFFF_FFFF_FFFF * 0x1_0000_0008) by (nonlinear_arith)
            requires
                settled <= 0xFFFF_FFFF_FFFF_FFFF,
                unit <= 0x1_0000_0008,
        ;
        let reclaimed: u128 = (settled as u128) * (unit as u128);
        let bytes_reclaimed = if reclaimed > u64::MAX as u128 { u64::MAX } else { reclaimed as u64 };
        Ok(crate::options::CompactionResult { bytes_reclaimed, segments_retired: retired, segments_created: created })
    }
}

/// Running compaction twice with no mutation in between reclaims nothing the
/// second time: the first run leaves no candidate behind.
pub proof fn lemma_compact_twice(s: RvfStore)
    requires
        s.wf(),
    ensures
        !has_candidate(
            s.policy(),
            compacted_segments(s.policy(), segs_view(s.vec_data@), s.manifest@.dead, s.log@.len() as u64),
            remaining_dead(s.policy(), segs_view(s.vec_data@), s.manifest@.dead),
        ),
        settled_count(
            s.policy(),
            compacted_segments(s.policy(), segs_view(s.vec_data@), s.manifest@.dead, s.log@.len() as u64),
            remaining_dead(s.policy(), segs_view(s.vec_data@), s.manifest@.dead),
        ) == 0,
{
    let segs = segs_view(s.vec_data@);
    assert forall|k: int| 0 <= k < segs.len() implies (#[trigger] segs[k]).0 != s.log@.len() as u64 by {
        let q = segs[k].0;
        assert(q < log_view(s.log@).len());
    }
    assert forall|i: int| 0 <= i < s.manifest@.dead.len() implies (#[trigger] s.manifest@.dead[i]).segment
        != s.log@.len() as u64 by {
        assert(s.manifest@.dead[i].segment < log_view(s.log@).len());
    }
    lemma_compaction_idempotent(s.policy(), segs, s.manifest@.dead, s.log@.len() as u64);
}


/// The live records of all segments, segment by segment.
pub open spec fn all_live(segs: Seq<VecSegView>, dead: Seq<DeadEntry>) -> Seq<(u64, Seq<u8>)>
    decreases segs.len(),
{
    if segs.len() == 0 {
        Seq::empty()
    } else {
        all_live(segs.drop_last(), dead) + live_records(segs.last().0, segs.last().1, dead)
    }
}

/// Whether `id` is the id of a live record.
pub open spec fn id_live(segs: Seq<VecSegView>, dead: Seq<DeadEntry>, id: u64) -> bool {
    exists|i: int| 0 <= i < all_live(segs, dead).len() && (#[trigger] all_live(segs, dead)[i]).0 == id
}

/// The candidates whose ids are live, in order.
pub open spec fn live_candidates(c: Seq<Candidate>, segs: Seq<VecSegView>, dead: Seq<DeadEntry>) -> Seq<Candidate>
    decreases c.len(),
{
    if c.len() == 0 {
        c
    } else {
        let rest = live_candidates(c.drop_last(), segs, dead);
        if id_live(segs, dead, c.last().id) {
            rest.push(c.last())
        } else {
            rest
        }
    }
}

/// The status of a store.
#[derive(Clone, Copy, Debug, PartialEq, Eq, Structural)]
pub struct StoreStatus {
    /// Vector segments that the current manifest names.
    pub segment_count: u64,
    pub manifest_generation: u64,
    pub lock_state: LockState,
    /// Bytes of deleted vectors that compaction can reclaim.
    pub pending_compaction_bytes: u64,
    /// Vectors that are live.
    pub live_vectors: u64,
    /// Segments in the file, manifests and retired ones included.
    pub file_segments: u64,
}

proof fn lemma_ordered_len_exact(segs: Seq<SegView>, i: nat, n: nat)
    requires
        i <= n <= segs.len(),
        forall|j: int| i <= j < n ==> (#[trigger] segs[j]).0.sequence == j,
        n == segs.len() || segs[n as int].0.sequence != n,
    ensures
        ordered_len(segs, i) == n,
    decreases segs.len() - i,
{
    if i < n {
        assert(segs[i as int].0.sequence == i);
        lemma_ordered_len_exact(segs, i + 1, n);
    }
}

impl RvfStore {
    /// The primary candidates whose vectors are live.
    pub open spec fn live_base(&self, primary: Seq<Candidate>) -> Seq<Candidate> {
        live_candidates(primary, segs_view(self.vec_data@), self.manifest@.dead)
    }

    /// Whether the safety net activates for a primary answer: by the
    /// activation policy, or because the store's callers ask for exhaustive
    /// quality.
    pub open spec fn activated(&self, query_index: u64, degenerate: bool) -> bool {
        activates(
            ResponseQuality::BestEffort,
            self.options.assurance,
            degenerate,
            query_index,
            self.options.audit_every,
        ) || self.options.quality == QualityPreference::Exhaustive
    }

    /// The live records, copied, segment by segment.
    pub fn collect_live(&self) -> (r: Vec<VectorRecord>)
        ensures
            r@.map_values(|x: VectorRecord| x@) == all_live(segs_view(self.vec_data@), self.manifest@.dead),
    {
        let ghost segs = segs_view(self.vec_data@);
        let mut out: Vec<VectorRecord> = Vec::new();
        let mut k: usize = 0;
        while k < self.vec_data.len()
            invariant
                k <= self.vec_data@.len(),
                segs == segs_view(self.vec_data@),
                out@.map_values(|x: VectorRecord| x@) == all_live(segs.subrange(0, k as int), self.manifest@.dead),
            decreases self.vec_data@.len() - k,
        {
            assert(segs.subrange(0, k + 1).drop_last() =~= segs.subrange(0, k as int));
            assert(segs.subrange(0, k + 1).last() == self.vec_data@[k as int]@);
            let live = live_records_of(&self.vec_data[k], &self.manifest.dead);
            let ghost before = out@.map_values(|x: VectorRecord| x@);
            let mut i: usize = 0;
            while i < live.len()
                invariant
                    i <= live@.len(),
                    out@.map_values(|x: VectorRecord| x@) == before + live@.subrange(0, i as int).map_values(
                        |x: VectorRecord| x@,
                    ),
                decreases live@.len() - i,
            {
                let ghost old_v = out@.map_values(|x: VectorRecord| x@);
                out.push(clone_record(&live[i]));
                assert(out@.map_values(|x: VectorRecord| x@) =~= old_v.push(live@[i as int]@));
                assert(live@.subrange(0, i + 1).map_values(|x: VectorRecord| x@) =~= live@.subrange(
                    0,
                    i as int,
                ).map_values(|x: VectorRecord| x@).push(live@[i as int]@));
                i = i + 1;
            }
            assert(live@.subrange(0, live@.len() as int) =~= live@);
            k = k + 1;
        }
        assert(segs.subrange(0, segs.len() as int) =~= segs);
        out
    }

    /// The store's status.
    pub fn status(&self) -> (r: StoreStatus)
        requires
            self.wf(),
        ensures
            r.segment_count == self.manifest@.vec_segments.len(),
            r.manifest_generation == self.manifest@.generation,
            r.lock_state == self.lock,
            r.pending_compaction_bytes == clamp_u64(self.manifest@.dead.len() * (8 + self.options.dim)),
            r.live_vectors == all_live(segs_view(self.vec_data@), self.manifest@.dead).len(),
            r.file_segments == self.log@.len(),
    {
        let live = self.collect_live();
        let unit: u64 = 8 + self.options.dim as u64;
        let n = self.manifest.dead.len() as u64;
        assert((n as int) * (unit as int) <= 0xFFFF_FFFF_FFFF_FFFF * 0x1_0000_0008) by (nonlinear_arith)
            requires
                n <= 0xFFFF_FFFF_FFFF_FFFF,
                unit <= 0x1_0000_0008,
        ;
        let pending: u128 = (n as u128) * (unit as u128);
        StoreStatus {
            segment_count: self.manifest.vec_segments.len() as u64,
            manifest_generation: self.manifest.generation,
            lock_state: self.lock,
            pending_compaction_bytes: if pending > u64::MAX as u128 { u64::MAX } else { pending as u64 },
            live_vectors: live.len() as u64,
            file_segments: self.log.len() as u64,
        }
    }

    /// Answers a query from the primary path's ranked candidates: candidates
    /// whose vectors are deleted are dropped; when the safety net activates
    /// and the caller is not throttled, a bounded scan of the live vectors
    /// extends the answer. A query never fails: under pressure its answer is
    /// labelled degraded.
    pub fn query(
        &self,
        query: &[u8],
        primary: &[Candidate],
        query_index: u64,
        degenerate: bool,
        throttled: bool,
    ) -> (r: SearchResult)
        requires
            self.wf(),
            query@.len() <= u32::MAX,
        ensures
            r.ids@.len() == r.scores@.len(),
            r.ids@.len() >= self.live_base(primary@).len(),
            forall|i: int|
                0 <= i < self.live_base(primary@).len() ==> r.ids@[i] == (#[trigger] self.live_base(
                    primary@,
                )[i]).id && r.scores@[i] == self.live_base(primary@)[i].distance,
            forall|i: int|
                0 <= i < r.ids@.len() ==> id_live(
                    segs_view(self.vec_data@),
                    self.manifest@.dead,
                    #[trigger] r.ids@[i],
                ),
            !self.activated(query_index, degenerate) || throttled ==> r.ids@.len()
                == self.live_base(primary@).len(),
            !self.activated(query_index, degenerate) ==> r.quality == ResponseQuality::BestEffort,
            self.activated(query_index, degenerate) && throttled ==> r.quality
                == ResponseQuality::Degraded,
            self.activated(query_index, degenerate) && !throttled ==> (r.quality
                == ResponseQuality::Exhaustive <==> all_live(
                segs_view(self.vec_data@),
                self.manifest@.dead,
            ).len() <= self.options.safety_net_cap),
    {
        let ghost segs = segs_view(self.vec_data@);
        let ghost dead = self.manifest@.dead;
        let live = self.collect_live();
        let ghost lv = live@.map_values(|x: VectorRecord| x@);
        let mut base: Vec<Candidate> = Vec::new();
        let mut i: usize = 0;
        while i < primary.len()
            invariant
                i <= primary@.len(),
                lv == all_live(segs, dead),
                lv == live@.map_values(|x: VectorRecord| x@),
                base@ == live_candidates(primary@.subrange(0, i as int), segs, dead),
                forall|j: int| 0 <= j < base@.len() ==> id_live(segs, dead, (#[trigger] base@[j]).id),
            decreases primary@.len() - i,
        {
            assert(primary@.subrange(0, i + 1).drop_last() =~= primary@.subrange(0, i as int));
            let c = primary[i];
            if live_has_id(&live, c.id) {
                proof {
                    let w = choose|w: int| 0 <= w < live@.len() && live@[w].id == c.id;
                    assert(lv[w].0 == c.id);
                }
                base.push(c);
            }
            i = i + 1;
        }
        assert(primary@.subrange(0, primary@.len() as int) =~= primary@);
        let activated = should_activate_safety_net(
            ResponseQuality::BestEffort,
            self.options.assurance,
            degenerate,
            query_index,
            self.options.audit_every,
        ) || self.options.quality == QualityPreference::Exhaustive;
        let ghost b = base@;
        let (cands, quality) = if activated && !throttled {
            let scan = selective_safety_net_scan(query, live.as_slice(), base.as_slice(), self.options.safety_net_cap as usize);
            proof {
                assert forall|i: int| 0 <= i < scan.candidates@.len() implies id_live(segs, dead, (#[trigger] scan.candidates@[i]).id) by {
                    if i < b.len() {
                        assert(scan.candidates@.subrange(0, b.len() as int)[i] == b[i]);
                    } else {
                        assert(scanned_match(scan.candidates@[i], query@, live@, scan.scanned as int));
                        let k = choose|k: int| 0 <= k < scan.scanned && (#[trigger] live@[k]).id == scan.candidates@[i].id
                            && live@[k].code@.len() == query@.len() && scan.candidates@[i].distance == l2_sq(query@, live@[k].code@);
                        assert(lv[k].0 == live@[k].id);
                    }
                }
                assert forall|i: int| 0 <= i < b.len() implies scan.candidates@[i] == b[i] by {
                    assert(scan.candidates@.subrange(0, b.len() as int)[i] == b[i]);
                }
            }
            let q = if scan.budget_exhausted { ResponseQuality::Degraded } else { ResponseQuality::Exhaustive };
            (scan.candidates, q)
        } else if activated {
            (base, ResponseQuality::Degraded)
        } else {
            (base, ResponseQuality::BestEffort)
        };
        assert(forall|i: int| 0 <= i < cands@.len() ==> id_live(segs, dead, (#[trigger] cands@[i]).id));
        let (ids, scores) = split_candidates(&cands);
        assert forall|i: int| 0 <= i < ids@.len() implies id_live(segs, dead, #[trigger] ids@[i]) by {
            assert(ids@[i] == cands@[i].id);
        }
        SearchResult { ids, scores, quality }
    }
}

fn split_candidates(cands: &Vec<Candidate>) -> (r: (Vec<u64>, Vec<u64>))
    ensures
        r.0@.len() == cands@.len(),
        r.1@.len() == cands@.len(),
        forall|x: int| 0 <= x < cands@.len() ==> r.0@[x] == (#[trigger] cands@[x]).id && r.1@[x] == cands@[x].distance,
{
    let mut ids: Vec<u64> = Vec::new();
    let mut scores: Vec<u64> = Vec::new();
    let mut j: usize = 0;
    while j < cands.len()
        invariant
            j <= cands@.len(),
            ids@.len() == j,
            scores@.len() == j,
            forall|x: int| 0 <= x < j ==> ids@[x] == (#[trigger] cands@[x]).id && scores@[x] == cands@[x].distance,
        decreases cands@.len() - j,
    {
        ids.push(cands[j].id);
        scores.push(cands[j].distance);
        j = j + 1;
    }
    (ids, scores)
}

fn live_has_id(live: &Vec<VectorRecord>, id: u64) -> (r: bool)
    ensures
        r == exists|w: int| 0 <= w < live@.len() && live@[w].id == id,
{
    let mut j: usize = 0;
    while j < live.len()
        invariant
            j <= live@.len(),
            forall|w: int| 0 <= w < j ==> live@[w].id != id,
        decreases live@.len() - j,
    {
        if live[j].id == id {
            return true;
        }
        j = j + 1;
    }
    false
}


fn ordered_count(segs: &Vec<Segment>) -> (r: usize)
    ensures
        r == ordered_len(log_view(segs@), 0),
        r <= segs@.len(),
{
    let ghost v = log_view(segs@);
    let mut i: usize = 0;
    while i < segs.len() && segs[i].header.sequence == i as u64
        invariant
            i <= segs@.len(),
            v == log_view(segs@),
            forall|j: int| 0 <= j < i ==> (#[trigger] v[j]).0.sequence == j,
        decreases segs@.len() - i,
    {
        i = i + 1;
    }
    proof {
        lemma_ordered_len_exact(v, 0, i as nat);
    }
    i
}

fn find_last_manifest(log: &Vec<Segment>) -> (r: Option<Manifest>)
    ensures
        match last_manifest(log_view(log@)) {
            Some(m) => r matches Some(x) && x@ == m,
            None => r is None,
        },
{
    let ghost v = log_view(log@);
    let mut i: usize = log.len();
    assert(v.subrange(0, i as int) =~= v);
    while i > 0
        invariant
            i <= log@.len(),
            v == log_view(log@),
            last_manifest(v) == last_manifest(v.subrange(0, i as int)),
        decreases i,
    {
        let ghost w = v.subrange(0, i as int);
        assert(w.drop_last() =~= v.subrange(0, i - 1));
        assert(w.last() == log@[i - 1]@);
        if log[i - 1].header.seg_type == SegmentType::Manifest {
            match Manifest::decode(log[i - 1].payload.as_slice()) {
                Some(m) => {
                    return Some(m);
                },
                None => {},
            }
        }
        i = i - 1;
    }
    None
}

fn load_vec_segment(log: &Vec<Segment>, seq: u64, dim: u32) -> (r: Option<StoredVecSegment>)
    ensures
        seq < log@.len() && log@[seq as int].header.seg_type == SegmentType::Vec && (exists|rs: Seq<
            (u64, Seq<u8>),
        >| encodes_records(dim, rs, log@[seq as int].payload@)) ==> r is Some,
        r matches Some(s) ==> s.seq == seq && seq < log@.len() && log@[seq as int].header.seg_type
            == SegmentType::Vec && log@[seq as int].payload@ == vec_payload(dim, s@.1)
            && codes_have_dim(s@.1, dim as nat),
{
    if seq >= log.len() as u64 {
        return None;
    }
    let seg = &log[seq as usize];
    if seg.header.seg_type != SegmentType::Vec {
        return None;
    }
    match decode_vec_payload(dim, seg.payload.as_slice()) {
        Some(records) => Some(StoredVecSegment { seq, records }),
        None => None,
    }
}

fn last_witness_of(log: &Vec<Segment>) -> (r: Option<u64>)
    ensures
        r matches Some(q) ==> q < log@.len() && log@[q as int].header.seg_type == SegmentType::Witness,
{
    let mut i: usize = log.len();
    while i > 0
        invariant
            i <= log@.len(),
        decreases i,
    {
        if log[i - 1].header.seg_type == SegmentType::Witness {
            return Some((i - 1) as u64);
        }
        i = i - 1;
    }
    None
}

/// Whether reopening a file succeeds: its ordered segments fit in a store,
/// and the last manifest among them has the store's dimension and names
/// vector segments that decode.
pub open spec fn reopenable(bytes: Seq<u8>, options: RvfOptions) -> bool {
    let log = ordered_prefix(parse_segments(bytes));
    &&& log.len() < MAX_SEGMENTS
    &&& match last_manifest(log) {
        Some(m) => manifest_fits(m) && m.dim == options.dim && exists|segs: Seq<VecSegView>|
            vec_data_ok(log, m, segs),
        None => false,
    }
}

impl RvfStore {
    /// Opens a store from the bytes of its file: reads the segments up to the
    /// first that is cut short or corrupt, keeps those whose sequence numbers
    /// are their positions, and recovers the last manifest among them. With
    /// no valid manifest the file is torn. `lock` is the advisory lock this
    /// process obtained on the file.
    pub fn open(bytes: &[u8], options: RvfOptions, lock: LockState) -> (r: Result<RvfStore, RvfError>)
        ensures
            r matches Ok(st) ==> {
                &&& st.wf()
                &&& st.state == StoreState::Open
                &&& st.lock == lock
                &&& st.options == options
                &&& log_view(st.log@) == ordered_prefix(parse_segments(bytes@))
                &&& recovered_manifest(bytes@) == Some(st.manifest@)
                &&& st.history@ == seq![st.manifest@]
            },
            ordered_prefix(parse_segments(bytes@)).len() < MAX_SEGMENTS && recovered_manifest(bytes@) is None
                ==> r == Err::<RvfStore, RvfError>(RvfError::TornManifest),
            reopenable(bytes@, options) ==> r is Ok,
    {
        let mut log = scan_segments(bytes);
        let n = ordered_count(&log);
        let ghost parsed = log_view(log@);
        log.truncate(n);
        assert(log_view(log@) =~= ordered_prefix(parsed));
        proof {
            lemma_ordered_len_stop(parsed, 0);
        }
        if n >= MAX_SEGMENTS {
            return Err(RvfError::CapacityExceeded);
        }
        let m = match find_last_manifest(&log) {
            Some(m) => m,
            None => {
                return Err(RvfError::TornManifest);
            },
        };
        if m.vec_segments.len() >= u32::MAX as usize || m.dead.len() >= u32::MAX as usize {
            return Err(RvfError::CapacityExceeded);
        }
        if m.dim != options.dim {
            return Err(RvfError::DimensionMismatch { expected: options.dim, got: m.dim as usize });
        }
        let ghost lv = log_view(log@);
        assert(recovered_manifest(bytes@) == Some(m@));
        let ghost ok = reopenable(bytes@, options);
        let ghost segs_w = if ok {
            choose|segs: Seq<VecSegView>| vec_data_ok(lv, m@, segs)
        } else {
            Seq::<VecSegView>::empty()
        };
        let mut vec_data: Vec<StoredVecSegment> = Vec::new();
        let mut k: usize = 0;
        while k < m.vec_segments.len()
            invariant
                k <= m.vec_segments@.len(),
                lv == log_view(log@),
                recovered_manifest(bytes@) == Some(m@),
                ok == reopenable(bytes@, options),
                ok ==> vec_data_ok(lv, m@, segs_w),
                seqs_of(segs_view(vec_data@)) == m.vec_segments@.subrange(0, k as int),
                forall|j: int|
                    0 <= j < vec_data@.len() ==> {
                        let q = (#[trigger] segs_view(vec_data@)[j]).0 as int;
                        &&& q < lv.len()
                        &&& lv[q].0.seg_type == SegmentType::Vec
                        &&& lv[q].1 == vec_payload(m@.dim, segs_view(vec_data@)[j].1)
                        &&& codes_have_dim(segs_view(vec_data@)[j].1, m@.dim as nat)
                    },
                distinct_seqs(segs_view(vec_data@)),
            decreases m.vec_segments@.len() - k,
        {
            let seq = m.vec_segments[k];
            let ghost before = segs_view(vec_data@);
            proof {
                if ok {
                    assert(seq == segs_w[k as int].0);
                    assert(!seqs_of(before).contains(seq)) by {
                        if seqs_of(before).contains(seq) {
                            let w = choose|w: int| 0 <= w < seqs_of(before).len() && seqs_of(before)[w] == seq;
                            assert(seqs_of(before)[w] == m.vec_segments@[w]);
                            assert(m.vec_segments@[w] == segs_w[w].0);
                        }
                    }
                    let q = segs_w[k as int].0 as int;
                    assert(encodes_records(m@.dim, segs_w[k as int].1, log@[q].payload@));
                }
            }
            if seq_listed(&vec_data, seq) {
                return Err(RvfError::CorruptSegment { sequence: seq });
            }
            match load_vec_segment(&log, seq, m.dim) {
                Some(sv) => {
                    let ghost svv = sv@;
                    vec_data.push(sv);
                    proof {
                        let after = segs_view(vec_data@);
                        assert(after =~= before.push(svv));
                        assert(svv.0 == seq);
                        assert(seqs_of(after) =~= seqs_of(before).push(seq));
                        assert(m.vec_segments@.subrange(0, k + 1) =~= m.vec_segments@.subrange(0, k as int).push(seq));
                        assert(seqs_of(after) =~= m.vec_segments@.subrange(0, k + 1));
                        assert forall|a: int, b: int| 0 <= a < b < after.len() implies (#[trigger] after[a]).0
                            != (#[trigger] after[b]).0 by {
                            if b < before.len() {
                                assert(after[a] == before[a] && after[b] == before[b]);
                            } else {
                                assert(after[a] == before[a]);
                                assert(seqs_of(before)[a] == before[a].0);
                            }
                        }
                        assert forall|j: int| 0 <= j < after.len() implies {
                            let q = (#[trigger] after[j]).0 as int;
                            &&& q < lv.len()
                            &&& lv[q].0.seg_type == SegmentType::Vec
                            &&& lv[q].1 == vec_payload(m@.dim, after[j].1)
                            &&& codes_have_dim(after[j].1, m@.dim as nat)
                        } by {
                            if j < before.len() {
                                assert(after[j] == before[j]);
                            }
                        }
                    }
                },
                None => {
                    return Err(RvfError::CorruptSegment { sequence: seq });
                },
            }
            k = k + 1;
        }
        assert(m.vec_segments@.subrange(0, m.vec_segments@.len() as int) =~= m.vec_segments@);
        let mut d: usize = 0;
        while d < m.dead.len()
            invariant
                d <= m.dead@.len(),
                lv == log_view(log@),
                recovered_manifest(bytes@) == Some(m@),
                ok == reopenable(bytes@, options),
                ok ==> vec_data_ok(lv, m@, segs_w),
                forall|i: int| 0 <= i < d ==> (#[trigger] m@.dead[i]).segment < lv.len(),
            decreases m.dead@.len() - d,
        {
            if m.dead[d].segment >= log.len() as u64 {
                return Err(RvfError::CorruptSegment { sequence: m.dead[d].segment });
            }
            d = d + 1;
        }
        let last_witness = last_witness_of(&log);
        let ghost h = seq![m@];
        let st = RvfStore {
            options,
            state: StoreState::Open,
            lock,
            log,
            manifest: m,
            vec_data,
            last_witness,
            history: Ghost(h),
        };
        proof {
            lemma_parse_ok(bytes@);
            assert(all_seg_ok(lv)) by {
                assert forall|i: int| 0 <= i < lv.len() implies seg_ok(#[trigger] lv[i].0, lv[i].1) by {
                    assert(lv[i] == parsed[i]);
                }
            }
        }
        Ok(st)
    }

    /// Closes the store: `Open -> Closing -> Closed`, releasing the lock.
    pub fn close(&mut self) -> (r: Result<(), RvfError>)
        ensures
            old(self).state == StoreState::Open ==> r is Ok && final(self).state == StoreState::Closed
                && final(self).lock == LockState::Unlocked,
            old(self).state != StoreState::Open ==> r == Err::<(), RvfError>(RvfError::InvalidState)
                && final(self).state == old(self).state && final(self).lock == old(self).lock,
            log_view(final(self).log@) == log_view(old(self).log@),
            final(self).manifest@ == old(self).manifest@,
    {
        match next_state(self.state, LifecycleEvent::Shutdown) {
            Some(closing) => {
                self.state = closing;
                match next_state(closing, LifecycleEvent::Released) {
                    Some(closed) => {
                        self.state = closed;
                    },
                    None => {},
                }
                self.lock = LockState::Unlocked;
                Ok(())
            },
            None => Err(RvfError::InvalidState),
        }
    }
}

fn seq_listed(vd: &Vec<StoredVecSegment>, seq: u64) -> (r: bool)
    ensures
        r == seqs_of(segs_view(vd@)).contains(seq),
{
    let ghost sv = seqs_of(segs_view(vd@));
    let mut j: usize = 0;
    while j < vd.len()
        invariant
            j <= vd@.len(),
            sv == seqs_of(segs_view(vd@)),
            forall|w: int| 0 <= w < j ==> sv[w] != seq,
        decreases vd@.len() - j,
    {
        if vd[j].seq == seq {
            assert(sv[j as int] == seq);
            return true;
        }
        j = j + 1;
    }
    false
}


/// The ids of some records.
pub open spec fn ids_of_records(r: Seq<VectorRecord>) -> Seq<u64> {
    r.map_values(|x: VectorRecord| x.id)
}

fn record_ids(records: &Vec<VectorRecord>) -> (r: Vec<u64>)
    ensures
        r@ == ids_of_records(records@),
{
    let mut ids: Vec<u64> = Vec::new();
    let mut i: usize = 0;
    while i < records.len()
        invariant
            i <= records@.len(),
            ids@ =~= ids_of_records(records@.subrange(0, i as int)),
        decreases records@.len() - i,
    {
        ids.push(records[i].id);
        i = i + 1;
    }
    assert(records@.subrange(0, records@.len() as int) =~= records@);
    ids
}

impl RvfStore {
    /// Replaces vectors: deletes every live vector with the id of one of
    /// `records`, then ingests `records`. Every check is made before the
    /// delete, so either both steps happen or neither does.
    pub fn update(&mut self, records: Vec<VectorRecord>) -> (r: Result<crate::options::IngestResult, RvfError>)
        requires
            old(self).wf(),
        ensures
            final(self).wf(),
            r is Err ==> final(self).same_data(old(self)),
            old(self).state != StoreState::Open ==> r == Err::<crate::options::IngestResult, RvfError>(RvfError::InvalidState),
            old(self).state == StoreState::Open && old(self).lock != LockState::Exclusive ==> r
                == Err::<crate::options::IngestResult, RvfError>(RvfError::LockContention),
            old(self).state == StoreState::Open && old(self).lock == LockState::Exclusive
                && !dims_match(records@, old(self).options.dim) ==> r matches Err(
                RvfError::DimensionMismatch { .. },
            ),
            old(self).state == StoreState::Open && old(self).lock == LockState::Exclusive
                && dims_match(records@, old(self).options.dim) && old(self).log@.len() + 7 < MAX_SEGMENTS
                && old(self).manifest@.vec_segments.len() + 1 < u32::MAX
                && old(self).manifest@.generation + 1 < u64::MAX
                && old(self).manifest@.dead.len() + deletions(
                    segs_view(old(self).vec_data@),
                    old(self).manifest@.dead,
                    ids_of_records(records@),
                ).len() < u32::MAX ==> r is Ok,
            r is Ok ==> {
                let new = deletions(segs_view(old(self).vec_data@), old(self).manifest@.dead, ids_of_records(records@));
                &&& final(self).manifest@.generation == old(self).manifest@.generation + 1 + if new.len() > 0 { 1int } else { 0int }
                &&& final(self).manifest@.dim == old(self).manifest@.dim
                &&& final(self).manifest@.pointers == old(self).manifest@.pointers
                &&& r->Ok_0.segments_written == 1 + commit_segments(old(self).options)
                &&& final(self).manifest@.dead == old(self).manifest@.dead + new
                &&& segs_view(final(self).vec_data@) == segs_view(old(self).vec_data@).push(
                    (final(self).manifest@.vec_segments.last(), records@.map_values(|x: VectorRecord| x@)),
                )
                &&& final(self).manifest@.vec_segments == old(self).manifest@.vec_segments.push(
                    final(self).manifest@.vec_segments.last(),
                )
                &&& old(self).history@.is_prefix_of(final(self).history@)
                &&& ends_with_commit(log_view(final(self).log@), final(self).manifest@, old(self).options.witness.enabled)
            },
            final(self).options == old(self).options,
            final(self).state == old(self).state,
            final(self).lock == old(self).lock,
    {
        if self.state != StoreState::Open {
            return Err(RvfError::InvalidState);
        }
        if self.lock != LockState::Exclusive {
            return Err(RvfError::LockContention);
        }
        let dim = self.options.dim;
        match first_dim_mismatch(&records, dim) {
            Some(i) => {
                return Err(RvfError::DimensionMismatch { expected: dim, got: records[i].code.len() });
            },
            None => {},
        }
        if self.log.len() >= MAX_SEGMENTS - 7 || self.manifest.vec_segments.len()
            >= u32::MAX as usize - 1 || self.manifest.generation >= u64::MAX - 1 {
            return Err(RvfError::CapacityExceeded);
        }
        let ids = record_ids(&records);
        let ghost old_hist = self.history@;
        let ghost old_dead = self.manifest@.dead;
        let ghost old_segs = segs_view(self.vec_data@);
        let ghost old_vs = self.manifest@.vec_segments;
        let d = self.delete(ids.as_slice());
        match d {
            Err(e) => {
                return Err(e);
            },
            Ok(_) => {},
        }
        let ghost mid_hist = self.history@;
        let no_metadata: Vec<u8> = Vec::new();
        let i = self.ingest(records, no_metadata.as_slice());
        proof {
            if i is Ok {
                assert(old_hist.is_prefix_of(self.history@)) by {
                    assert forall|k: int| 0 <= k < old_hist.len() implies old_hist[k] == self.history@[k] by {
                        assert(mid_hist[k] == self.history@[k]);
                    }
                }
            }
        }
        i
    }
}

/// Once taken, a snapshot stays one of the committed manifests: mutations
/// only append to the history, so every query observes a manifest that
/// existed at some point of the serialized mutation order.
pub proof fn lemma_snapshot_isolation(
    before: Seq<ManifestModel>,
    after: Seq<ManifestModel>,
    snap: ManifestModel,
)
    requires
        before.contains(snap),
        before.is_prefix_of(after),
    ensures
        after.contains(snap),
{
    let i = choose|i: int| 0 <= i < before.len() && before[i] == snap;
    assert(after[i] == snap);
}


/// Reopening the bytes of a store's file succeeds and gives back all of its
/// segments, with their checksums, and its current manifest, pointers
/// included.
pub proof fn lemma_store_reopen(s: RvfStore)
    requires
        s.wf(),
    ensures
        reopenable(file_bytes_of(log_view(s.log@)), s.options),
        ordered_prefix(parse_segments(file_bytes_of(log_view(s.log@)))) == log_view(s.log@),
        recovered_manifest(file_bytes_of(log_view(s.log@))) == Some(s.manifest@),
{
    lemma_reopen_round_trip(log_view(s.log@));
    assert(vec_data_ok(log_view(s.log@), s.manifest@, segs_view(s.vec_data@)));
}

/// A crash in the middle of a mutation, after any of its data segments and
/// anywhere inside the segment that followed them, manifest included,
/// reopens to the manifest that was current before the mutation, and keeps
/// every segment that the store had.
pub proof fn lemma_store_crash_recovery(s: RvfStore, written: Seq<SegView>, next: SegView, n: int)
    requires
        s.wf(),
        all_seg_ok(written),
        no_manifest(written),
        seg_ok(next.0, next.1),
        0 <= n < segment_bytes(next).len(),
    ensures
        recovered_manifest(file_bytes_of(log_view(s.log@) + written) + segment_bytes(next).subrange(0, n))
            == Some(s.manifest@),
{
    lemma_crash_recovery(log_view(s.log@), written, next, n);
}

} // verus!
