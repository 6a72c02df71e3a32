//! Vectors as the store keeps them: an id and a quantized code of one byte
//! per dimension, the payload layout of a vector segment, and the squared
//! Euclidean distance between codes.
//!
//! A vector segment's payload is `dim: u64`, `count: u64`, then for each
//! vector its `id: u64` followed by its `dim` code bytes.
use crate::codec::{
    copy_range, get_le, le_bytes, le_value, lemma_bytes_of_le_value, lemma_le_bytes_len,
    lemma_le_value_bound, lemma_pow256_values, put_bytes, put_le,
};
use vstd::prelude::*;

verus! {

/// A stored vector: its id and its quantized code.
#[derive(Clone, Debug)]
pub struct VectorRecord {
    pub id: u64,
    pub code: Vec<u8>,
}

impl View for VectorRecord {
    type V = (u64, Seq<u8>);

    open spec fn view(&self) -> (u64, Seq<u8>) {
        (self.id, self.code@)
    }
}

/// The views of a sequence of records.
pub open spec fn record_views(r: Seq<VectorRecord>) -> Seq<(u64, Seq<u8>)> {
    r.map_values(|x: VectorRecord| x@)
}

/// Whether every code has `dim` bytes.
pub open spec fn codes_have_dim(r: Seq<(u64, Seq<u8>)>, dim: nat) -> bool {
    forall|i: int| 0 <= i < r.len() ==> (#[trigger] r[i]).1.len() == dim
}

/// The bytes of records one after another.
pub open spec fn records_bytes(r: Seq<(u64, Seq<u8>)>) -> Seq<u8>
    decreases r.len(),
{
    if r.len() == 0 {
        Seq::empty()
    } else {
        records_bytes(r.drop_last()) + le_bytes(r.last().0 as nat, 8) + r.last().1
    }
}

/// The payload of a vector segment.
pub open spec fn vec_payload(dim: u32, r: Seq<(u64, Seq<u8>)>) -> Seq<u8> {
    le_bytes(dim as nat, 8) + le_bytes(r.len(), 8) + records_bytes(r)
}

/// Whether `p` is the payload of records `r` of dimension `dim`.
pub open spec fn encodes_records(dim: u32, r: Seq<(u64, Seq<u8>)>, p: Seq<u8>) -> bool {
    p == vec_payload(dim, r) && codes_have_dim(r, dim as nat)
}

proof fn lemma_records_bytes_len(r: Seq<(u64, Seq<u8>)>)
    ensures
        records_bytes(r).len() >= 8 * r.len(),
    decreases r.len(),
{
    if r.len() > 0 {
        lemma_records_bytes_len(r.drop_last());
        lemma_le_bytes_len(r.last().0 as nat, 8);
    }
}

proof fn lemma_records_prefix(r: Seq<(u64, Seq<u8>)>, i: int)
    requires
        0 <= i <= r.len(),
    ensures
        records_bytes(r.subrange(0, i)).len() <= records_bytes(r).len(),
        records_bytes(r).subrange(0, records_bytes(r.subrange(0, i)).len() as int) == records_bytes(
            r.subrange(0, i),
        ),
    decreases r.len() - i,
{
    if i == r.len() {
        assert(r.subrange(0, i) =~= r);
        assert(records_bytes(r).subrange(0, records_bytes(r).len() as int) =~= records_bytes(r));
    } else {
        lemma_records_prefix(r, i + 1);
        let a = r.subrange(0, i);
        let b = r.subrange(0, i + 1);
        assert(b.drop_last() =~= a);
        lemma_le_bytes_len(b.last().0 as nat, 8);
        let la = records_bytes(a).len() as int;
        let lb = records_bytes(b).len() as int;
        assert(records_bytes(b).subrange(0, la) =~= records_bytes(a));
        assert(records_bytes(r).subrange(0, la) =~= records_bytes(r).subrange(0, lb).subrange(0, la));
    }
}

proof fn lemma_next_record(dim: u32, rs: Seq<(u64, Seq<u8>)>, p: Seq<u8>, i: int, pos: int)
    requires
        encodes_records(dim, rs, p),
        0 <= i < rs.len(),
        16 <= pos,
        records_bytes(rs.subrange(0, i)).len() == pos - 16,
    ensures
        pos + 8 + dim <= p.len(),
        p.subrange(pos, pos + 8) == le_bytes(rs[i].0 as nat, 8),
        le_value(p.subrange(pos, pos + 8)) == rs[i].0,
        p.subrange(pos + 8, pos + 8 + dim) == rs[i].1,
        records_bytes(rs.subrange(0, i + 1)).len() == pos - 16 + 8 + dim,
{
    lemma_pow256_values();
    lemma_le_bytes_len(dim as nat, 8);
    lemma_le_bytes_len(rs.len(), 8);
    lemma_records_prefix(rs, i + 1);
    let a = rs.subrange(0, i);
    let b = rs.subrange(0, i + 1);
    let rb = records_bytes(rs);
    assert(b.drop_last() =~= a);
    assert(b.last() == rs[i]);
    lemma_le_bytes_len(rs[i].0 as nat, 8);
    assert(rs[i].1.len() == dim);
    let q = pos - 16;
    assert(records_bytes(b) == records_bytes(a) + le_bytes(rs[i].0 as nat, 8) + rs[i].1);
    assert(p.subrange(16, p.len() as int) =~= rb);
    assert(rb.subrange(0, records_bytes(b).len() as int) == records_bytes(b));
    assert(p.subrange(pos, pos + 8) =~= records_bytes(b).subrange(q, q + 8));
    assert(records_bytes(b).subrange(q, q + 8) =~= le_bytes(rs[i].0 as nat, 8));
    assert(p.subrange(pos + 8, pos + 8 + dim) =~= records_bytes(b).subrange(q + 8, q + 8 + dim));
    assert(records_bytes(b).subrange(q + 8, q + 8 + dim) =~= rs[i].1);
    crate::codec::lemma_le_value_of_bytes(rs[i].0 as nat, 8);
}

/// Copies a record, code included.
pub fn clone_record(r: &VectorRecord) -> (c: VectorRecord)
    ensures
        c@ == r@,
{
    let mut code: Vec<u8> = Vec::new();
    put_bytes(&mut code, r.code.as_slice());
    assert(code@ =~= r.code@);
    VectorRecord { id: r.id, code }
}

/// Serializes records of dimension `dim` to a vector segment payload.
pub fn encode_vec_payload(dim: u32, records: &[VectorRecord]) -> (r: Vec<u8>)
    ensures
        r@ == vec_payload(dim, record_views(records@)),
{
    let mut out: Vec<u8> = Vec::new();
    put_le(&mut out, dim as u64, 8);
    put_le(&mut out, records.len() as u64, 8);
    let ghost head = out@;
    let mut i: usize = 0;
    while i < records.len()
        invariant
            i <= records@.len(),
            out@ == head + records_bytes(record_views(records@.subrange(0, i as int))),
        decreases records@.len() - i,
    {
        let rec = &records[i];
        put_le(&mut out, rec.id, 8);
        put_bytes(&mut out, rec.code.as_slice());
        proof {
            let before = record_views(records@.subrange(0, i as int));
            let after = record_views(records@.subrange(0, i + 1));
            assert(after.drop_last() =~= before);
            assert(after.last() == rec@);
        }
        i = i + 1;
        assert(out@ =~= head + records_bytes(record_views(records@.subrange(0, i as int))));
    }
    assert(records@.subrange(0, records@.len() as int) =~= records@);
    assert(out@ =~= vec_payload(dim, record_views(records@)));
    out
}

/// Reads the records of a vector segment payload of dimension `dim`. A
/// result is the records whose encoding is exactly the payload.
pub fn decode_vec_payload(dim: u32, payload: &[u8]) -> (r: Option<Vec<VectorRecord>>)
    ensures
        r matches Some(recs) ==> vec_payload(dim, record_views(recs@)) == payload@
            && codes_have_dim(record_views(recs@), dim as nat),
        (exists|rs: Seq<(u64, Seq<u8>)>| encodes_records(dim, rs, payload@)) ==> r is Some,
{
    let len = payload.len();
    let ghost enc = exists|rs: Seq<(u64, Seq<u8>)>| encodes_records(dim, rs, payload@);
    let ghost rs = if enc {
        choose|rs: Seq<(u64, Seq<u8>)>| encodes_records(dim, rs, payload@)
    } else {
        Seq::<(u64, Seq<u8>)>::empty()
    };
    proof {
        lemma_pow256_values();
        if enc {
            lemma_le_bytes_len(dim as nat, 8);
            lemma_le_bytes_len(rs.len(), 8);
            lemma_records_bytes_len(rs);
            assert(payload@.subrange(0, 8) =~= le_bytes(dim as nat, 8));
            assert(payload@.subrange(8, 16) =~= le_bytes(rs.len(), 8));
            assert(payload@.subrange(16, len as int) =~= records_bytes(rs));
            crate::codec::lemma_le_value_of_bytes(dim as nat, 8);
            crate::codec::lemma_le_value_of_bytes(rs.len(), 8);
        }
    }
    if len < 16 {
        return None;
    }
    proof {
        lemma_le_value_bound(payload@.subrange(0, 8));
        lemma_bytes_of_le_value(payload@.subrange(0, 8));
        lemma_bytes_of_le_value(payload@.subrange(8, 16));
    }
    let stored_dim = get_le(payload, 0, 8);
    if stored_dim != dim as u64 {
        return None;
    }
    let count = get_le(payload, 8, 8);
    assert(enc ==> count == rs.len());
    let d = dim as usize;
    let mut recs: Vec<VectorRecord> = Vec::new();
    let mut pos: usize = 16;
    let mut i: u64 = 0;
    while i < count
        invariant
            len == payload@.len(),
            16 <= pos <= len,
            d == dim,
            i <= count,
            recs@.len() == i,
            payload@.subrange(16, pos as int) == records_bytes(record_views(recs@)),
            codes_have_dim(record_views(recs@), dim as nat),
            enc == (exists|rs: Seq<(u64, Seq<u8>)>| encodes_records(dim, rs, payload@)),
            enc ==> encodes_records(dim, rs, payload@) && count == rs.len() && record_views(recs@)
                == rs.subrange(0, i as int) && payload@.subrange(16, len as int) == records_bytes(rs),
        decreases count - i,
    {
        proof {
            if enc {
                lemma_next_record(dim, rs, payload@, i as int, pos as int);
            }
        }
        if len - pos < 8 || len - pos - 8 < d {
            return None;
        }
        let id = get_le(payload, pos, 8);
        let code = copy_range(payload, pos + 8, d);
        let ghost before = record_views(recs@);
        proof {
            lemma_bytes_of_le_value(payload@.subrange(pos as int, pos + 8));
            lemma_pow256_values();
            if enc {
                assert(code@ =~= payload@.subrange(pos + 8, pos + 8 + d));
            }
        }
        recs.push(VectorRecord { id, code });
        proof {
            let after = record_views(recs@);
            assert(after.drop_last() =~= before);
            if enc {
                assert(after =~= rs.subrange(0, i + 1));
            }
            assert forall|j: int| 0 <= j < after.len() implies (#[trigger] after[j]).1.len()
                == dim as nat by {
                if j < before.len() {
                    assert(after[j] == before[j]);
                }
            }
            assert(payload@.subrange(16, pos + 8 + d) =~= payload@.subrange(16, pos as int)
                + payload@.subrange(pos as int, pos + 8) + payload@.subrange(pos + 8, pos + 8 + d));
        }
        pos = pos + 8 + d;
        i = i + 1;
    }
    proof {
        if enc {
            assert(rs.subrange(0, rs.len() as int) =~= rs);
        }
    }
    if pos != len {
        return None;
    }
    proof {
        let v = record_views(recs@);
        assert(payload@ =~= payload@.subrange(0, 8) + payload@.subrange(8, 16) + payload@.subrange(
            16,
            len as int,
        ));
        assert(v.len() == count);
    }
    Some(recs)
}

/// Squared Euclidean distance between two codes of the same length.
pub open spec fn l2_sq(a: Seq<u8>, b: Seq<u8>) -> int
    decreases a.len(),
{
    if a.len() == 0 || b.len() == 0 {
        0
    } else {
        let d = a.last() as int - b.last() as int;
        l2_sq(a.drop_last(), b.drop_last()) + d * d
    }
}

/// The squared Euclidean distance between two codes of equal length.
pub fn l2_distance(a: &[u8], b: &[u8]) -> (r: u64)
    requires
        a@.len() == b@.len(),
        a@.len() <= u32::MAX,
    ensures
        r == l2_sq(a@, b@),
{
    let mut acc: u64 = 0;
    let mut i: usize = 0;
    while i < a.len()
        invariant
            a@.len() == b@.len(),
            a@.len() <= u32::MAX,
            i <= a@.len(),
            acc == l2_sq(a@.subrange(0, i as int), b@.subrange(0, i as int)),
            acc <= i * 65025,
        decreases a@.len() - i,
    {
        let x = a[i] as i64;
        let y = b[i] as i64;
        let diff = x - y;
        assert(diff * diff <= 65025) by (nonlinear_arith)
            requires
                -255 <= diff <= 255,
        ;
        assert(diff * diff >= 0) by (nonlinear_arith);
        assert(a@.subrange(0, i + 1).drop_last() =~= a@.subrange(0, i as int));
        assert(b@.subrange(0, i + 1).drop_last() =~= b@.subrange(0, i as int));
        acc = acc + (diff * diff) as u64;
        i = i + 1;
    }
    assert(a@.subrange(0, a@.len() as int) =~= a@);
    assert(b@.subrange(0, b@.len() as int) =~= b@);
    acc
}

} // verus!
