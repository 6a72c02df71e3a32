use rvf::error::RvfError;
use rvf::options::{ResponseQuality, RvfOptions};
use rvf::safety_net::Candidate;
use rvf::manifest::Manifest;
use rvf::segment::{encode_segment, read_segment, scan_segments, Segment, SegmentType};
use rvf::store::{next_state, LifecycleEvent, LockState, RvfStore, StoreState};
use rvf::vectors::VectorRecord;

const DIM: u32 = 4;

fn rec(id: u64) -> VectorRecord {
    let b = (id % 251) as u8;
    VectorRecord { id, code: vec![b, b.wrapping_add(1), b.wrapping_add(2), b.wrapping_add(3)] }
}

fn batch(from: u64, n: u64) -> Vec<VectorRecord> {
    (from..from + n).map(rec).collect()
}

#[test]
fn scenario_ingest_delete_compact() {
    let mut store = RvfStore::create(RvfOptions::with_dim(DIM));
    for s in 0..10u64 {
        let r = store.ingest(batch(s * 100, 100), &[]).unwrap();
        assert_eq!(r.segments_written, 3);
        assert!(r.bytes_written > 0);
    }
    let st = store.status();
    assert_eq!(st.segment_count, 10);
    assert_eq!(st.file_segments, 31);
    assert_eq!(st.live_vectors, 1000);
    let ids: Vec<u64> = (0..500).collect();
    let d = store.delete(&ids).unwrap();
    assert_eq!(d.tombstones_written, 500);
    assert_eq!(store.status().live_vectors, 500);
    assert_eq!(store.status().pending_compaction_bytes, 500 * 12);
    let c = store.compact().unwrap();
    assert!(c.segments_retired >= 1);
    assert_eq!(c.segments_retired, 5);
    assert_eq!(c.segments_created, 0);
    assert_eq!(c.bytes_reclaimed, 500 * 12);
    let st = store.status();
    assert_eq!(st.live_vectors, 500);
    assert_eq!(st.segment_count, 5);
    assert_eq!(st.pending_compaction_bytes, 0);
}

#[test]
fn compaction_twice_reclaims_nothing_more() {
    let mut store = RvfStore::create(RvfOptions::with_dim(DIM));
    store.ingest(batch(0, 10), &[]).unwrap();
    store.ingest(batch(10, 10), &[]).unwrap();
    store.delete(&[1, 2, 3, 15]).unwrap();
    let first = store.compact().unwrap();
    // Three of ten dead reaches the 250-per-mille ratio; one of ten does not.
    assert_eq!(first.segments_retired, 1);
    assert_eq!(first.segments_created, 1);
    assert_eq!(first.bytes_reclaimed, 3 * 12);
    assert_eq!(store.status().pending_compaction_bytes, 12);
    let generation = store.status().manifest_generation;
    let second = store.compact().unwrap();
    assert_eq!(second.bytes_reclaimed, 0);
    assert_eq!(second.segments_retired, 0);
    assert_eq!(store.status().manifest_generation, generation);
    assert_eq!(store.status().live_vectors, 16);
}

#[test]
fn reopen_round_trip() {
    let mut store = RvfStore::create(RvfOptions::with_dim(DIM));
    store.ingest(batch(0, 7), &[]).unwrap();
    store.ingest(batch(7, 5), &[]).unwrap();
    store.delete(&[3]).unwrap();
    let bytes = store.file_bytes();
    let reopened = RvfStore::open(&bytes, RvfOptions::with_dim(DIM), LockState::Shared).unwrap();
    assert_eq!(reopened.log.len(), store.log.len());
    for (a, b) in reopened.log.iter().zip(store.log.iter()) {
        assert_eq!(a.header, b.header);
        assert_eq!(a.header.checksum, b.header.checksum);
    }
    assert_eq!(reopened.manifest.generation, store.manifest.generation);
    assert_eq!(reopened.manifest.vec_segments, store.manifest.vec_segments);
    assert_eq!(reopened.manifest.dead, store.manifest.dead);
    assert_eq!(reopened.manifest.pointers, store.manifest.pointers);
    assert_eq!(reopened.status().live_vectors, 11);
    assert_eq!(reopened.file_bytes(), bytes);
}

#[test]
fn crash_before_manifest_flip_recovers_previous_state() {
    let mut store = RvfStore::create(RvfOptions::with_dim(DIM));
    store.ingest(batch(0, 5), &[]).unwrap();
    let before = store.file_bytes();
    let generation = store.manifest.generation;
    store.ingest(batch(5, 5), &[]).unwrap();
    let after = store.file_bytes();
    assert!(after.len() > before.len());
    for cut in [before.len(), before.len() + 1, before.len() + 40, after.len() - 1] {
        let reopened = RvfStore::open(&after[..cut], RvfOptions::with_dim(DIM), LockState::Exclusive).unwrap();
        assert_eq!(reopened.manifest.generation, generation);
        assert_eq!(reopened.status().live_vectors, 5);
    }
    let full = RvfStore::open(&after, RvfOptions::with_dim(DIM), LockState::Exclusive).unwrap();
    assert_eq!(full.status().live_vectors, 10);
}

#[test]
fn torn_file_without_manifest() {
    assert_eq!(
        RvfStore::open(&[1, 2, 3], RvfOptions::with_dim(DIM), LockState::Shared).err(),
        Some(RvfError::TornManifest)
    );
    let store = RvfStore::create(RvfOptions::with_dim(DIM));
    let bytes = store.file_bytes();
    assert_eq!(
        RvfStore::open(&bytes[..bytes.len() - 1], RvfOptions::with_dim(DIM), LockState::Shared).err(),
        Some(RvfError::TornManifest)
    );
}

#[test]
fn corrupt_segment_is_not_read() {
    let mut store = RvfStore::create(RvfOptions::with_dim(DIM));
    store.ingest(batch(0, 3), &[]).unwrap();
    let mut bytes = store.file_bytes();
    let last = bytes.len() - 1;
    bytes[last] ^= 0xFF;
    let segs = scan_segments(&bytes);
    assert_eq!(segs.len(), store.log.len() - 1);
    let reopened = RvfStore::open(&bytes, RvfOptions::with_dim(DIM), LockState::Shared).unwrap();
    assert_eq!(reopened.manifest.generation, 0);
}

#[test]
fn dimension_mismatch_on_reopen() {
    let store = RvfStore::create(RvfOptions::with_dim(DIM));
    let bytes = store.file_bytes();
    assert_eq!(
        RvfStore::open(&bytes, RvfOptions::with_dim(8), LockState::Shared).err(),
        Some(RvfError::DimensionMismatch { expected: 8, got: 4 })
    );
}

#[test]
fn mutation_errors() {
    let mut store = RvfStore::create(RvfOptions::with_dim(DIM));
    let bad = vec![VectorRecord { id: 1, code: vec![1, 2] }];
    assert_eq!(
        store.ingest(bad, &[]).err(),
        Some(RvfError::DimensionMismatch { expected: 4, got: 2 })
    );
    assert_eq!(store.status().manifest_generation, 0);
    let bytes = store.file_bytes();
    let mut reader = RvfStore::open(&bytes, RvfOptions::with_dim(DIM), LockState::Shared).unwrap();
    assert_eq!(reader.ingest(batch(0, 1), &[]).err(), Some(RvfError::LockContention));
    assert_eq!(reader.delete(&[0]).err(), Some(RvfError::LockContention));
    assert_eq!(reader.compact().err(), Some(RvfError::LockContention));
    store.close().unwrap();
    assert_eq!(store.state, StoreState::Closed);
    assert_eq!(store.lock, LockState::Unlocked);
    assert_eq!(store.ingest(batch(0, 1), &[]).err(), Some(RvfError::InvalidState));
    assert_eq!(store.close().err(), Some(RvfError::InvalidState));
}

#[test]
fn delete_of_absent_ids_writes_nothing() {
    let mut store = RvfStore::create(RvfOptions::with_dim(DIM));
    store.ingest(batch(0, 3), &[]).unwrap();
    let n = store.log.len();
    let r = store.delete(&[77, 78]).unwrap();
    assert_eq!(r.tombstones_written, 0);
    assert_eq!(store.log.len(), n);
    let r = store.delete(&[1, 1, 2]).unwrap();
    assert_eq!(r.tombstones_written, 2);
    assert_eq!(store.delete(&[1]).unwrap().tombstones_written, 0);
}

#[test]
fn snapshot_survives_later_mutations() {
    let mut store = RvfStore::create(RvfOptions::with_dim(DIM));
    store.ingest(batch(0, 3), &[]).unwrap();
    let snap = store.snapshot();
    store.ingest(batch(3, 3), &[]).unwrap();
    store.delete(&[0]).unwrap();
    assert_eq!(snap.generation, 1);
    assert_eq!(snap.vec_segments.len(), 1);
    assert!(snap.dead.is_empty());
    assert_eq!(store.manifest.generation, 3);
}

#[test]
fn segments_are_witnessed_and_ordered() {
    let mut store = RvfStore::create(RvfOptions::with_dim(DIM));
    store.ingest(batch(0, 2), &[]).unwrap();
    let types: Vec<SegmentType> = store.log.iter().map(|s| s.header.seg_type).collect();
    assert_eq!(
        types,
        vec![SegmentType::Manifest, SegmentType::Vec, SegmentType::Witness, SegmentType::Manifest]
    );
    for (i, s) in store.log.iter().enumerate() {
        assert_eq!(s.header.sequence, i as u64);
    }
    let bytes = store.file_bytes();
    let first = read_segment(&bytes, 0).unwrap();
    assert_eq!(first.header.seg_type, SegmentType::Manifest);
}

#[test]
fn query_filters_deleted_and_runs_safety_net() {
    let mut opts = RvfOptions::with_dim(DIM);
    opts.assurance = ResponseQuality::Exhaustive;
    let mut store = RvfStore::create(opts);
    store.ingest(batch(0, 4), &[]).unwrap();
    store.delete(&[1]).unwrap();
    let primary = vec![Candidate { id: 1, distance: 0 }, Candidate { id: 2, distance: 5 }];
    let q = [0u8, 1, 2, 3];
    let r = store.query(&q, &primary, 1, false, false);
    assert_eq!(r.quality, ResponseQuality::Exhaustive);
    assert_eq!(r.ids[0], 2);
    assert_eq!(r.scores[0], 5);
    assert_eq!(r.ids.len(), 3);
    assert!(r.ids.contains(&0) && r.ids.contains(&3));
    assert!(!r.ids.contains(&1));
    let pos = r.ids.iter().position(|&x| x == 0).unwrap();
    assert_eq!(r.scores[pos], 0);
    let throttled = store.query(&q, &primary, 1, false, true);
    assert_eq!(throttled.quality, ResponseQuality::Degraded);
    assert_eq!(throttled.ids, vec![2]);
}

#[test]
fn query_best_effort_without_trigger() {
    let mut store = RvfStore::create(RvfOptions::with_dim(DIM));
    store.ingest(batch(0, 4), &[]).unwrap();
    let primary = vec![Candidate { id: 3, distance: 9 }, Candidate { id: 99, distance: 1 }];
    let r = store.query(&[0, 0, 0, 0], &primary, 1, false, false);
    assert_eq!(r.quality, ResponseQuality::BestEffort);
    assert_eq!(r.ids, vec![3]);
    let degenerate = store.query(&[0, 0, 0, 0], &primary, 1, true, false);
    assert_eq!(degenerate.quality, ResponseQuality::Exhaustive);
    assert_eq!(degenerate.ids.len(), 4);
}

#[test]
fn lifecycle_transitions() {
    assert_eq!(next_state(StoreState::Closed, LifecycleEvent::Begin), Some(StoreState::Opening));
    assert_eq!(next_state(StoreState::Opening, LifecycleEvent::Validated), Some(StoreState::Open));
    assert_eq!(next_state(StoreState::Open, LifecycleEvent::Shutdown), Some(StoreState::Closing));
    assert_eq!(next_state(StoreState::Closing, LifecycleEvent::Released), Some(StoreState::Closed));
    assert_eq!(next_state(StoreState::Open, LifecycleEvent::Begin), None);
}

#[test]
fn manifest_naming_missing_segment_is_corrupt() {
    let mut m = Manifest::empty(DIM);
    m.vec_segments = vec![5];
    let seg = Segment::new(SegmentType::Manifest, 0, 0, m.encode());
    let mut bytes = Vec::new();
    encode_segment(&mut bytes, &seg);
    assert_eq!(
        RvfStore::open(&bytes, RvfOptions::with_dim(DIM), LockState::Shared).err(),
        Some(RvfError::CorruptSegment { sequence: 5 })
    );
}

#[test]
fn every_mutation_ends_with_witness_and_manifest() {
    let mut store = RvfStore::create(RvfOptions::with_dim(DIM));
    store.ingest(batch(0, 4), &[]).unwrap();
    store.delete(&[0, 1, 2]).unwrap();
    store.compact().unwrap();
    let types: Vec<SegmentType> = store.log.iter().map(|s| s.header.seg_type).collect();
    assert_eq!(
        types,
        vec![
            SegmentType::Manifest,
            SegmentType::Vec,
            SegmentType::Witness,
            SegmentType::Manifest,
            SegmentType::Tombstone,
            SegmentType::Witness,
            SegmentType::Manifest,
            SegmentType::Vec,
            SegmentType::Witness,
            SegmentType::Manifest,
        ]
    );
    assert_eq!(store.status().live_vectors, 1);
    assert_eq!(store.manifest.vec_segments, vec![7]);
}

#[test]
fn update_replaces_live_vectors() {
    let mut store = RvfStore::create(RvfOptions::with_dim(DIM));
    store.ingest(batch(0, 4), &[]).unwrap();
    let r = store.update(vec![VectorRecord { id: 1, code: vec![9, 9, 9, 9] }]).unwrap();
    assert_eq!(r.segments_written, 3);
    let st = store.status();
    assert_eq!(st.live_vectors, 4);
    assert_eq!(st.segment_count, 2);
    assert_eq!(st.manifest_generation, 3);
    assert_eq!(store.manifest.dead.len(), 1);
    assert_eq!(store.manifest.dead[0].id, 1);
    let bad = vec![VectorRecord { id: 2, code: vec![1] }];
    assert_eq!(
        store.update(bad).err(),
        Some(RvfError::DimensionMismatch { expected: 4, got: 1 })
    );
    assert_eq!(store.status().manifest_generation, 3);
}

#[test]
fn witness_logging_can_be_turned_off() {
    let mut opts = RvfOptions::with_dim(DIM);
    opts.witness.enabled = false;
    let mut store = RvfStore::create(opts);
    let r = store.ingest(batch(0, 2), &[]).unwrap();
    assert_eq!(r.segments_written, 2);
    let types: Vec<SegmentType> = store.log.iter().map(|s| s.header.seg_type).collect();
    assert_eq!(types, vec![SegmentType::Manifest, SegmentType::Vec, SegmentType::Manifest]);
    let bytes = store.file_bytes();
    let reopened = RvfStore::open(&bytes, opts, LockState::Shared).unwrap();
    assert_eq!(reopened.status().live_vectors, 2);
}

#[test]
fn exhaustive_preference_always_scans() {
    let mut opts = RvfOptions::with_dim(DIM);
    opts.quality = rvf::options::QualityPreference::Exhaustive;
    let mut store = RvfStore::create(opts);
    store.ingest(batch(0, 3), &[]).unwrap();
    let r = store.query(&[0, 1, 2, 3], &[], 7, false, false);
    assert_eq!(r.quality, ResponseQuality::Exhaustive);
    assert_eq!(r.ids.len(), 3);
    assert_eq!(r.scores[0], 0);
}

#[test]
fn ingest_writes_metadata_segment() {
    let mut store = RvfStore::create(RvfOptions::with_dim(DIM));
    let r = store.ingest(batch(0, 2), b"tag").unwrap();
    assert_eq!(r.segments_written, 4);
    let types: Vec<SegmentType> = store.log.iter().map(|s| s.header.seg_type).collect();
    assert_eq!(
        types,
        vec![SegmentType::Manifest, SegmentType::Vec, SegmentType::Meta, SegmentType::Witness, SegmentType::Manifest]
    );
    assert_eq!(store.log[2].payload, vec![1, 0, 0, 0, 0, 0, 0, 0, b't', b'a', b'g']);
    let bytes = store.file_bytes();
    let reopened = RvfStore::open(&bytes, RvfOptions::with_dim(DIM), LockState::Shared).unwrap();
    assert_eq!(reopened.status().live_vectors, 2);
}

#[test]
fn update_of_absent_id_only_ingests() {
    let mut store = RvfStore::create(RvfOptions::with_dim(DIM));
    store.ingest(batch(0, 2), &[]).unwrap();
    store.update(vec![rec(50)]).unwrap();
    let st = store.status();
    assert_eq!(st.manifest_generation, 2);
    assert_eq!(st.live_vectors, 3);
    assert!(store.manifest.dead.is_empty());
}
