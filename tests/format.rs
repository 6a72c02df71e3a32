use rvf::codec::{get_le, get_words, put_le, put_words};
use rvf::manifest::{DeadEntry, Manifest, SegmentPtr};
use rvf::segment::{encode_segment, read_segment, scan_segments, Segment, SegmentType, SEGMENT_MAGIC};
use rvf::vectors::{decode_vec_payload, encode_vec_payload, VectorRecord};

#[test]
fn little_endian_round_trip() {
    let mut out = Vec::new();
    put_le(&mut out, 0x0102_0304_0506_0708, 8);
    assert_eq!(out, vec![8, 7, 6, 5, 4, 3, 2, 1]);
    assert_eq!(get_le(&out, 0, 8), 0x0102_0304_0506_0708);
    assert_eq!(get_le(&out, 2, 2), 0x0506);
    let mut w = Vec::new();
    put_words(&mut w, &[1, u64::MAX]);
    assert_eq!(w.len(), 16);
    assert_eq!(get_words(&w), vec![1, u64::MAX]);
}

#[test]
fn segment_round_trip() {
    let seg = Segment::new(SegmentType::Tombstone, 7, 3, vec![9, 8, 7]);
    assert_eq!(seg.header.magic, SEGMENT_MAGIC);
    assert_eq!(seg.header.payload_len, 3);
    let mut bytes = Vec::new();
    encode_segment(&mut bytes, &seg);
    assert_eq!(bytes.len(), 35);
    let back = read_segment(&bytes, 0).unwrap();
    assert_eq!(back.header, seg.header);
    assert_eq!(back.payload, seg.payload);
    assert!(read_segment(&bytes[..34], 0).is_none());
    let mut flipped = bytes.clone();
    flipped[33] ^= 1;
    assert!(read_segment(&flipped, 0).is_none());
    let seg2 = Segment::new(SegmentType::Vec, 8, 0, vec![]);
    encode_segment(&mut bytes, &seg2);
    assert_eq!(scan_segments(&bytes).len(), 2);
}

#[test]
fn manifest_round_trip() {
    let mut m = Manifest::empty(16);
    m.generation = 42;
    m.vec_segments = vec![3, 5, 8];
    m.dead = vec![DeadEntry { segment: 3, id: 17 }];
    m.pointers.hot_cache = SegmentPtr { segment_id: 5, offset: 64, length: 128 };
    let bytes = m.encode();
    assert_eq!(bytes.len(), 8 * (4 + 3 + 2 + 18));
    let back = Manifest::decode(&bytes).unwrap();
    assert_eq!(back.generation, 42);
    assert_eq!(back.dim, 16);
    assert_eq!(back.vec_segments, vec![3, 5, 8]);
    assert_eq!(back.dead, m.dead);
    assert_eq!(back.pointers, m.pointers);
    assert!(Manifest::decode(&bytes[..bytes.len() - 8]).is_none());
    assert!(Manifest::decode(&bytes[..7]).is_none());
}

#[test]
fn vector_payload_round_trip() {
    let recs = vec![
        VectorRecord { id: 1, code: vec![1, 2] },
        VectorRecord { id: 2, code: vec![3, 4] },
    ];
    let p = encode_vec_payload(2, &recs);
    assert_eq!(p.len(), 16 + 2 * 10);
    let back = decode_vec_payload(2, &p).unwrap();
    assert_eq!(back.len(), 2);
    assert_eq!(back[1].id, 2);
    assert_eq!(back[1].code, vec![3, 4]);
    assert!(decode_vec_payload(3, &p).is_none());
    assert!(decode_vec_payload(2, &p[..p.len() - 1]).is_none());
}
