//! The segment: the immutable, checksummed unit of the append-only file.
//!
//! A segment is a 32-byte header followed by its payload:
//!
//! ```text
//! Offset  Type   Field
//! 0x00    u32    magic
//! 0x04    u16    version
//! 0x06    u8     segment type
//! 0x07    u8     checksum algorithm
//! 0x08    u16    flags
//! 0x0A    u16    reserved, zero
//! 0x0C    u32    payload checksum
//! 0x10    u64    payload length
//! 0x18    u64    sequence number
//! ```
//!
//! A file is its segments one after another. Reading stops at the first
//! segment that is cut short or fails its header or checksum check.
use crate::codec::{
    checksum, checksum_of, copy_range, get_le, le_bytes, le_value, lemma_le_bytes_len,
    lemma_le_value_bound, lemma_le_value_of_bytes, lemma_pow256_values, put_bytes, put_le,
};
use vstd::prelude::*;

verus! {

/// Magic number of every segment header: "RVFS".
pub const SEGMENT_MAGIC: u32 = 0x5256_4653;

/// Version of the segment header layout.
pub const SEGMENT_VERSION: u16 = 1;

/// Size of a segment header in bytes.
pub const SEGMENT_HEADER_SIZE: usize = 32;

/// What a segment holds.
#[derive(Clone, Copy, Debug, PartialEq, Eq, Structural)]
pub enum SegmentType {
    /// A block of vectors.
    Vec,
    /// An index structure.
    Index,
    /// Metadata.
    Meta,
    /// Deletion markers.
    Tombstone,
    /// A witness record of one mutation.
    Witness,
    /// A manifest.
    Manifest,
}

/// The byte that encodes a segment type.
pub open spec fn seg_type_code(t: SegmentType) -> u8 {
    match t {
        SegmentType::Vec => 1,
        SegmentType::Index => 2,
        SegmentType::Meta => 3,
        SegmentType::Tombstone => 4,
        SegmentType::Witness => 5,
        SegmentType::Manifest => 6,
    }
}

/// The segment type that a byte encodes, if any.
pub open spec fn seg_type_of(c: u8) -> Option<SegmentType> {
    if c == 1 {
        Some(SegmentType::Vec)
    } else if c == 2 {
        Some(SegmentType::Index)
    } else if c == 3 {
        Some(SegmentType::Meta)
    } else if c == 4 {
        Some(SegmentType::Tombstone)
    } else if c == 5 {
        Some(SegmentType::Witness)
    } else if c == 6 {
        Some(SegmentType::Manifest)
    } else {
        None
    }
}

/// Payload checksum algorithms.
#[derive(Clone, Copy, Debug, PartialEq, Eq, Structural)]
pub enum ChecksumAlgo {
    /// Adler-32 over the payload bytes.
    Adler32,
}

/// The byte that encodes a checksum algorithm.
pub open spec fn algo_code(a: ChecksumAlgo) -> u8 {
    match a {
        ChecksumAlgo::Adler32 => 1,
    }
}

/// The checksum algorithm that a byte encodes, if any.
pub open spec fn algo_of(c: u8) -> Option<ChecksumAlgo> {
    if c == 1 {
        Some(ChecksumAlgo::Adler32)
    } else {
        None
    }
}

/// A segment header.
#[derive(Clone, Copy, Debug, PartialEq, Eq, Structural)]
pub struct SegmentHeader {
    pub magic: u32,
    pub version: u16,
    pub seg_type: SegmentType,
    pub checksum_algo: ChecksumAlgo,
    pub flags: u16,
    pub checksum: u32,
    pub payload_len: u64,
    pub sequence: u64,
}

/// The 32 bytes of a header.
pub open spec fn header_bytes(h: SegmentHeader) -> Seq<u8> {
    le_bytes(h.magic as nat, 4) + le_bytes(h.version as nat, 2) + seq![seg_type_code(h.seg_type)]
        + seq![algo_code(h.checksum_algo)] + le_bytes(h.flags as nat, 2) + le_bytes(0, 2)
        + le_bytes(h.checksum as nat, 4) + le_bytes(h.payload_len as nat, 8) + le_bytes(
        h.sequence as nat,
        8,
    )
}

/// The header that the first 32 bytes of `b` encode, if they encode one.
pub open spec fn decode_header(b: Seq<u8>) -> Option<SegmentHeader> {
    if b.len() < SEGMENT_HEADER_SIZE {
        None
    } else if seg_type_of(b[6]) is None || algo_of(b[7]) is None || le_value(b.subrange(10, 12))
        != 0 {
        None
    } else {
        Some(
            SegmentHeader {
                magic: le_value(b.subrange(0, 4)) as u32,
                version: le_value(b.subrange(4, 6)) as u16,
                seg_type: seg_type_of(b[6])->Some_0,
                checksum_algo: algo_of(b[7])->Some_0,
                flags: le_value(b.subrange(8, 10)) as u16,
                checksum: le_value(b.subrange(12, 16)) as u32,
                payload_len: le_value(b.subrange(16, 24)) as u64,
                sequence: le_value(b.subrange(24, 32)) as u64,
            },
        )
    }
}

/// A header and payload that belong together: right magic and version,
/// the payload's length and the payload's checksum.
pub open spec fn seg_ok(h: SegmentHeader, p: Seq<u8>) -> bool {
    &&& h.magic == SEGMENT_MAGIC
    &&& h.version == SEGMENT_VERSION
    &&& h.payload_len == p.len()
    &&& h.checksum == checksum_of(p)
}

/// The segment at the start of `b`, if a whole valid one is there.
pub open spec fn parse_one(b: Seq<u8>) -> Option<(SegmentHeader, Seq<u8>)> {
    match decode_header(b) {
        Some(h) => if h.magic == SEGMENT_MAGIC && h.version == SEGMENT_VERSION && b.len()
            >= SEGMENT_HEADER_SIZE + h.payload_len && checksum_of(
            b.subrange(32, 32 + h.payload_len),
        ) == h.checksum {
            Some((h, b.subrange(32, 32 + h.payload_len)))
        } else {
            None
        },
        None => None,
    }
}

/// The segments that a file holds: valid segments from its start, up to the
/// first one that is cut short or corrupt.
pub open spec fn parse_segments(b: Seq<u8>) -> Seq<(SegmentHeader, Seq<u8>)>
    decreases b.len(),
{
    match parse_one(b) {
        Some((h, p)) => if 32 + p.len() <= b.len() {
            seq![(h, p)] + parse_segments(b.subrange(32 + p.len() as int, b.len() as int))
        } else {
            Seq::empty()
        },
        None => Seq::empty(),
    }
}

/// The bytes of one segment.
pub open spec fn segment_bytes(s: (SegmentHeader, Seq<u8>)) -> Seq<u8> {
    header_bytes(s.0) + s.1
}

/// The bytes of a file that holds `segs` in order.
pub open spec fn file_bytes_of(segs: Seq<(SegmentHeader, Seq<u8>)>) -> Seq<u8>
    decreases segs.len(),
{
    if segs.len() == 0 {
        Seq::empty()
    } else {
        segment_bytes(segs[0]) + file_bytes_of(segs.drop_first())
    }
}

/// Whether every segment of `segs` is valid.
pub open spec fn all_seg_ok(segs: Seq<(SegmentHeader, Seq<u8>)>) -> bool {
    forall|i: int| 0 <= i < segs.len() ==> seg_ok(#[trigger] segs[i].0, segs[i].1)
}

pub proof fn lemma_header_bytes_len(h: SegmentHeader)
    ensures
        header_bytes(h).len() == SEGMENT_HEADER_SIZE,
{
    lemma_le_bytes_len(h.magic as nat, 4);
    lemma_le_bytes_len(h.version as nat, 2);
    lemma_le_bytes_len(h.flags as nat, 2);
    lemma_le_bytes_len(0, 2);
    lemma_le_bytes_len(h.checksum as nat, 4);
    lemma_le_bytes_len(h.payload_len as nat, 8);
    lemma_le_bytes_len(h.sequence as nat, 8);
}

/// Any bytes that start with the header's 32 bytes decode to that header.
pub proof fn lemma_decode_header(h: SegmentHeader, t: Seq<u8>)
    ensures
        decode_header(header_bytes(h) + t) == Some(h),
{
    let b = header_bytes(h) + t;
    lemma_header_bytes_len(h);
    lemma_pow256_values();
    lemma_le_bytes_len(h.magic as nat, 4);
    lemma_le_bytes_len(h.version as nat, 2);
    lemma_le_bytes_len(h.flags as nat, 2);
    lemma_le_bytes_len(0, 2);
    lemma_le_bytes_len(h.checksum as nat, 4);
    lemma_le_bytes_len(h.payload_len as nat, 8);
    lemma_le_bytes_len(h.sequence as nat, 8);
    assert(b.subrange(0, 4) =~= le_bytes(h.magic as nat, 4));
    assert(b.subrange(4, 6) =~= le_bytes(h.version as nat, 2));
    assert(b.subrange(8, 10) =~= le_bytes(h.flags as nat, 2));
    assert(b.subrange(10, 12) =~= le_bytes(0, 2));
    assert(b.subrange(12, 16) =~= le_bytes(h.checksum as nat, 4));
    assert(b.subrange(16, 24) =~= le_bytes(h.payload_len as nat, 8));
    assert(b.subrange(24, 32) =~= le_bytes(h.sequence as nat, 8));
    lemma_le_value_of_bytes(h.magic as nat, 4);
    lemma_le_value_of_bytes(h.version as nat, 2);
    lemma_le_value_of_bytes(h.flags as nat, 2);
    lemma_le_value_of_bytes(0, 2);
    lemma_le_value_of_bytes(h.checksum as nat, 4);
    lemma_le_value_of_bytes(h.payload_len as nat, 8);
    lemma_le_value_of_bytes(h.sequence as nat, 8);
    assert(b[6] == seg_type_code(h.seg_type));
    assert(b[7] == algo_code(h.checksum_algo));
}

/// A valid segment followed by anything parses as that segment.
pub proof fn lemma_parse_one(h: SegmentHeader, p: Seq<u8>, t: Seq<u8>)
    requires
        seg_ok(h, p),
    ensures
        parse_one(segment_bytes((h, p)) + t) == Some((h, p)),
{
    let b = segment_bytes((h, p)) + t;
    lemma_header_bytes_len(h);
    assert(b =~= header_bytes(h) + (p + t));
    lemma_decode_header(h, p + t);
    assert(b.subrange(32, 32 + h.payload_len) =~= p);
}

/// Reading a file of valid segments followed by anything gives those
/// segments, then what the rest gives.
pub proof fn lemma_parse_file(segs: Seq<(SegmentHeader, Seq<u8>)>, t: Seq<u8>)
    requires
        all_seg_ok(segs),
    ensures
        parse_segments(file_bytes_of(segs) + t) == segs + parse_segments(t),
    decreases segs.len(),
{
    if segs.len() == 0 {
        assert(file_bytes_of(segs) + t =~= t);
        assert(segs + parse_segments(t) =~= parse_segments(t));
    } else {
        let s0 = segs[0];
        let rest = segs.drop_first();
        assert(seg_ok(s0.0, s0.1));
        assert(all_seg_ok(rest)) by {
            assert forall|i: int| 0 <= i < rest.len() implies seg_ok(
                #[trigger] rest[i].0,
                rest[i].1,
            ) by {
                assert(rest[i] == segs[i + 1]);
            }
        }
        lemma_parse_file(rest, t);
        let b = file_bytes_of(segs) + t;
        let tail = file_bytes_of(rest) + t;
        assert(b =~= segment_bytes(s0) + tail);
        lemma_parse_one(s0.0, s0.1, tail);
        lemma_header_bytes_len(s0.0);
        assert(b.subrange(32 + s0.1.len() as int, b.len() as int) =~= tail);
        assert(segs =~= seq![s0] + rest);
        assert(segs + parse_segments(t) =~= seq![s0] + (rest + parse_segments(t)));
    }
}

/// Every segment read from a file is valid.
pub proof fn lemma_parse_ok(b: Seq<u8>)
    ensures
        all_seg_ok(parse_segments(b)),
    decreases b.len(),
{
    match parse_one(b) {
        Some((h, p)) => {
            if 32 + p.len() <= b.len() {
                let rest = b.subrange(32 + p.len() as int, b.len() as int);
                lemma_parse_ok(rest);
                let all = parse_segments(b);
                assert(all == seq![(h, p)] + parse_segments(rest));
                assert forall|i: int| 0 <= i < all.len() implies seg_ok(#[trigger] all[i].0, all[i].1) by {
                    if i > 0 {
                        assert(all[i] == parse_segments(rest)[i - 1]);
                    }
                }
            }
        },
        None => {},
    }
}

/// A valid segment cut short anywhere reads as nothing.
pub proof fn lemma_parse_truncated(h: SegmentHeader, p: Seq<u8>, n: int)
    requires
        seg_ok(h, p),
        0 <= n < segment_bytes((h, p)).len(),
    ensures
        parse_segments(segment_bytes((h, p)).subrange(0, n)) =~= Seq::<
            (SegmentHeader, Seq<u8>),
        >::empty(),
{
    let t = segment_bytes((h, p)).subrange(0, n);
    lemma_header_bytes_len(h);
    if n >= 32 {
        assert(t =~= header_bytes(h) + t.subrange(32, n));
        lemma_decode_header(h, t.subrange(32, n));
    }
}

/// A whole segment in memory.
#[derive(Clone, Debug)]
pub struct Segment {
    pub header: SegmentHeader,
    pub payload: Vec<u8>,
}

impl View for Segment {
    type V = (SegmentHeader, Seq<u8>);

    open spec fn view(&self) -> (SegmentHeader, Seq<u8>) {
        (self.header, self.payload@)
    }
}

/// The views of a sequence of segments.
pub open spec fn seg_views(s: Seq<Segment>) -> Seq<(SegmentHeader, Seq<u8>)> {
    s.map_values(|x: Segment| x@)
}

impl Segment {
    /// Builds a valid segment around `payload`.
    pub fn new(seg_type: SegmentType, sequence: u64, flags: u16, payload: Vec<u8>) -> (r: Segment)
        ensures
            seg_ok(r.header, r.payload@),
            r.payload@ == payload@,
            r.header.seg_type == seg_type,
            r.header.sequence == sequence,
            r.header.flags == flags,
    {
        let c = checksum(payload.as_slice());
        let header = SegmentHeader {
            magic: SEGMENT_MAGIC,
            version: SEGMENT_VERSION,
            seg_type,
            checksum_algo: ChecksumAlgo::Adler32,
            flags,
            checksum: c,
            payload_len: payload.len() as u64,
            sequence,
        };
        Segment { header, payload }
    }
}

fn type_code(t: SegmentType) -> (r: u8)
    ensures
        r == seg_type_code(t),
{
    match t {
        SegmentType::Vec => 1,
        SegmentType::Index => 2,
        SegmentType::Meta => 3,
        SegmentType::Tombstone => 4,
        SegmentType::Witness => 5,
        SegmentType::Manifest => 6,
    }
}

fn type_from_code(c: u8) -> (r: Option<SegmentType>)
    ensures
        r == seg_type_of(c),
{
    if c == 1 {
        Some(SegmentType::Vec)
    } else if c == 2 {
        Some(SegmentType::Index)
    } else if c == 3 {
        Some(SegmentType::Meta)
    } else if c == 4 {
        Some(SegmentType::Tombstone)
    } else if c == 5 {
        Some(SegmentType::Witness)
    } else if c == 6 {
        Some(SegmentType::Manifest)
    } else {
        None
    }
}

/// Appends the bytes of `s` to `out`.
pub fn encode_segment(out: &mut Vec<u8>, s: &Segment)
    ensures
        final(out)@ == old(out)@ + segment_bytes(s@),
{
    let h = &s.header;
    put_le(out, h.magic as u64, 4);
    put_le(out, h.version as u64, 2);
    out.push(type_code(h.seg_type));
    out.push(
        match h.checksum_algo {
            ChecksumAlgo::Adler32 => 1u8,
        },
    );
    put_le(out, h.flags as u64, 2);
    put_le(out, 0, 2);
    put_le(out, h.checksum as u64, 4);
    put_le(out, h.payload_len, 8);
    put_le(out, h.sequence, 8);
    put_bytes(out, s.payload.as_slice());
    assert(final(out)@ =~= old(out)@ + segment_bytes(s@));
}

/// Reads the segment that starts at `off` in `data`, if a whole valid one is there.
pub fn read_segment(data: &[u8], off: usize) -> (r: Option<Segment>)
    requires
        off <= data@.len(),
    ensures
        match parse_one(data@.subrange(off as int, data@.len() as int)) {
            Some(v) => r matches Some(s) && s@ == v,
            None => r is None,
        },
{
    let len = data.len();
    let ghost b = data@.subrange(off as int, data@.len() as int);
    if len - off < SEGMENT_HEADER_SIZE {
        return None;
    }
    proof {
        lemma_pow256_values();
        assert(data@.subrange(off + 10, off + 12) =~= b.subrange(10, 12));
        assert(data@.subrange(off + 0, off + 4) =~= b.subrange(0, 4));
        assert(data@.subrange(off + 4, off + 6) =~= b.subrange(4, 6));
        assert(data@.subrange(off + 8, off + 10) =~= b.subrange(8, 10));
        assert(data@.subrange(off + 12, off + 16) =~= b.subrange(12, 16));
        assert(data@.subrange(off + 16, off + 24) =~= b.subrange(16, 24));
        assert(data@.subrange(off + 24, off + 32) =~= b.subrange(24, 32));
        lemma_le_value_bound(b.subrange(0, 4));
        lemma_le_value_bound(b.subrange(4, 6));
        lemma_le_value_bound(b.subrange(8, 10));
        lemma_le_value_bound(b.subrange(12, 16));
    }
    let seg_type = match type_from_code(data[off + 6]) {
        Some(t) => t,
        None => return None,
    };
    if data[off + 7] != 1 {
        return None;
    }
    let reserved = get_le(data, off + 10, 2);
    if reserved != 0 {
        return None;
    }
    let magic = get_le(data, off, 4) as u32;
    let version = get_le(data, off + 4, 2) as u16;
    let flags = get_le(data, off + 8, 2) as u16;
    let sum = get_le(data, off + 12, 4) as u32;
    let payload_len = get_le(data, off + 16, 8);
    let sequence = get_le(data, off + 24, 8);
    let header = SegmentHeader {
        magic,
        version,
        seg_type,
        checksum_algo: ChecksumAlgo::Adler32,
        flags,
        checksum: sum,
        payload_len,
        sequence,
    };
    assert(decode_header(b) == Some(header));
    if magic != SEGMENT_MAGIC || version != SEGMENT_VERSION {
        return None;
    }
    let avail = len - off - SEGMENT_HEADER_SIZE;
    if payload_len > avail as u64 {
        return None;
    }
    let n = payload_len as usize;
    let payload = copy_range(data, off + SEGMENT_HEADER_SIZE, n);
    assert(payload@ =~= b.subrange(32, 32 + n));
    let c = checksum(payload.as_slice());
    if c != sum {
        return None;
    }
    Some(Segment { header, payload })
}

/// Reads every segment of a file, from its start up to the first segment
/// that is cut short or corrupt.
pub fn scan_segments(data: &[u8]) -> (r: Vec<Segment>)
    ensures
        seg_views(r@) == parse_segments(data@),
{
    let len = data.len();
    let mut out: Vec<Segment> = Vec::new();
    let mut off: usize = 0;
    assert(data@.subrange(0, len as int) =~= data@);
    loop
        invariant
            len == data@.len(),
            off <= len,
            seg_views(out@) + parse_segments(data@.subrange(off as int, len as int))
                == parse_segments(data@),
        decreases len - off,
    {
        let ghost b = data@.subrange(off as int, len as int);
        match read_segment(data, off) {
            Some(s) => {
                let step = SEGMENT_HEADER_SIZE + s.payload.len();
                assert(32 + s@.1.len() <= b.len());
                assert(parse_segments(b) == seq![s@] + parse_segments(
                    b.subrange(32 + s@.1.len() as int, b.len() as int),
                ));
                assert(b.subrange(32 + s@.1.len() as int, b.len() as int) =~= data@.subrange(
                    off + step,
                    len as int,
                ));
                let ghost before = seg_views(out@);
                out.push(s);
                assert(seg_views(out@) =~= before.push(s@));
                off = off + step;
                assert(seg_views(out@) + parse_segments(data@.subrange(off as int, len as int))
                    =~= before + parse_segments(b));
            },
            None => {
                assert(parse_segments(b) =~= Seq::<(SegmentHeader, Seq<u8>)>::empty());
                assert(seg_views(out@) =~= seg_views(out@) + parse_segments(b));
                return out;
            },
        }
    }
}

} // verus!
