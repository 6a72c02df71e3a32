//! The safety net: a bounded exhaustive re-scan that checks a suspect
//! primary answer and extends it.
use crate::options::{quality_rank, rank, ResponseQuality};
use crate::vectors::{l2_distance, l2_sq, VectorRecord};
use vstd::prelude::*;

verus! {

/// A candidate answer: a vector id and its distance to the query.
#[derive(Clone, Copy, Debug, PartialEq, Eq, Structural)]
pub struct Candidate {
    pub id: u64,
    pub distance: u64,
}

/// What a safety-net scan returns.
#[derive(Clone, Debug)]
pub struct SafetyNetResult {
    /// The primary candidates, then the new ones the scan found.
    pub candidates: Vec<Candidate>,
    /// Number of vectors read.
    pub scanned: u64,
    /// Whether the scan stopped at its cap before reading every vector.
    pub budget_exhausted: bool,
}

/// The ids of some candidates.
pub open spec fn ids_of(c: Seq<Candidate>) -> Set<u64> {
    Set::new(|id: u64| exists|i: int| 0 <= i < c.len() && (#[trigger] c[i]).id == id)
}

/// Whether the safety net runs: the answer is below the assurance level, the
/// query stream is degenerate, or the query is one of every `audit_every`
/// sampled for auditing.
pub open spec fn activates(
    quality: ResponseQuality,
    assurance: ResponseQuality,
    degenerate: bool,
    query_index: u64,
    audit_every: u64,
) -> bool {
    quality_rank(quality) < quality_rank(assurance) || degenerate || (audit_every > 0
        && query_index % audit_every == 0)
}

/// Decides whether a query's answer is re-checked by the safety net.
pub fn should_activate_safety_net(
    quality: ResponseQuality,
    assurance: ResponseQuality,
    degenerate: bool,
    query_index: u64,
    audit_every: u64,
) -> (r: bool)
    ensures
        r == activates(quality, assurance, degenerate, query_index, audit_every),
{
    rank(quality) < rank(assurance) || degenerate || (audit_every > 0 && query_index % audit_every
        == 0)
}

/// Whether a candidate is one of the first `n` vectors, of the query's
/// dimension, with its distance to the query.
pub open spec fn scanned_match(c: Candidate, query: Seq<u8>, vectors: Seq<VectorRecord>, n: int) -> bool {
    exists|k: int|
        0 <= k < n && (#[trigger] vectors[k]).id == c.id && vectors[k].code@.len() == query.len()
            && c.distance == l2_sq(query, vectors[k].code@)
}

fn contains_id(c: &Vec<Candidate>, id: u64) -> (r: bool)
    ensures
        r == ids_of(c@).contains(id),
{
    let mut x: usize = 0;
    while x < c.len()
        invariant
            x <= c@.len(),
            forall|y: int| 0 <= y < x ==> (#[trigger] c@[y]).id != id,
        decreases c@.len() - x,
    {
        if c[x].id == id {
            assert(c@[x as int].id == id);
            return true;
        }
        x = x + 1;
    }
    false
}

/// Scans at most `cap` vectors and adds to the primary candidates every
/// scanned vector of the query's dimension whose id is not already there.
pub fn selective_safety_net_scan(
    query: &[u8],
    vectors: &[VectorRecord],
    primary: &[Candidate],
    cap: usize,
) -> (r: SafetyNetResult)
    requires
        query@.len() <= u32::MAX,
    ensures
        r.candidates@.len() >= primary@.len(),
        r.candidates@.subrange(0, primary@.len() as int) == primary@,
        ids_of(primary@).subset_of(ids_of(r.candidates@)),
        r.scanned == if vectors@.len() < cap {
            vectors@.len()
        } else {
            cap as nat
        },
        r.budget_exhausted == (vectors@.len() > cap),
        forall|j: int|
            0 <= j < r.scanned && (#[trigger] vectors@[j]).code@.len() == query@.len() ==> ids_of(
                r.candidates@,
            ).contains(vectors@[j].id),
        forall|i: int|
            primary@.len() <= i < r.candidates@.len() ==> scanned_match(
                #[trigger] r.candidates@[i],
                query@,
                vectors@,
                r.scanned as int,
            ),
{
    let mut out: Vec<Candidate> = Vec::new();
    let mut i: usize = 0;
    while i < primary.len()
        invariant
            i <= primary@.len(),
            out@ =~= primary@.subrange(0, i as int),
        decreases primary@.len() - i,
    {
        out.push(primary[i]);
        i = i + 1;
    }
    assert(primary@.subrange(0, primary@.len() as int) =~= primary@);
    let limit = if vectors.len() < cap {
        vectors.len()
    } else {
        cap
    };
    let mut j: usize = 0;
    while j < limit
        invariant
            forall|x: int|
                primary@.len() <= x < out@.len() ==> scanned_match(
                    #[trigger] out@[x],
                    query@,
                    vectors@,
                    j as int,
                ),
            limit <= vectors@.len(),
            j <= limit,
            query@.len() <= u32::MAX,
            out@.len() >= primary@.len(),
            out@.subrange(0, primary@.len() as int) == primary@,
            forall|k: int|
                0 <= k < j && (#[trigger] vectors@[k]).code@.len() == query@.len() ==> ids_of(
                    out@,
                ).contains(vectors@[k].id),
        decreases limit - j,
    {
        let v = &vectors[j];
        let ghost out0 = out@;
        if v.code.len() == query.len() {
            let present = contains_id(&out, v.id);
            if !present {
                let d = l2_distance(query, v.code.as_slice());
                let ghost before = out@;
                out.push(Candidate { id: v.id, distance: d });
                proof {
                    assert(out@.subrange(0, primary@.len() as int) =~= before.subrange(
                        0,
                        primary@.len() as int,
                    ));
                    assert(out@[before.len() as int].id == v.id);
                }
            }
        }
        proof {
            assert forall|x: int|
                primary@.len() <= x < out@.len() implies scanned_match(
                #[trigger] out@[x],
                query@,
                vectors@,
                j + 1,
            ) by {
                if x < out0.len() {
                    assert(out@[x] == out0[x]);
                    assert(scanned_match(out0[x], query@, vectors@, j as int));
                    let k = choose|k: int|
                        0 <= k < j && (#[trigger] vectors@[k]).id == out0[x].id
                            && vectors@[k].code@.len() == query@.len() && out0[x].distance
                            == l2_sq(query@, vectors@[k].code@);
                    assert(vectors@[k].id == out@[x].id);
                } else {
                    assert(vectors@[j as int].id == out@[x].id);
                }
            }
            assert forall|k: int|
                0 <= k < j + 1 && (#[trigger] vectors@[k]).code@.len()
                    == query@.len() implies ids_of(out@).contains(vectors@[k].id) by {
                if k < j {
                    let w = choose|w: int|
                        0 <= w < out0.len() && (#[trigger] out0[w]).id == vectors@[k].id;
                    assert(out@[w] == out0[w]);
                }
            }
        }
        j = j + 1;
    }
    proof {
        assert forall|id: u64| ids_of(primary@).contains(id) implies ids_of(out@).contains(id) by {
            let w = choose|w: int| 0 <= w < primary@.len() && (#[trigger] primary@[w]).id == id;
            assert(out@.subrange(0, primary@.len() as int)[w] == primary@[w]);
            assert(out@[w].id == id);
        }
    }
    proof {
    }
    let scanned = limit as u64;
    let ghost outv = out@;
    let res = SafetyNetResult { candidates: out, scanned, budget_exhausted: vectors.len() > cap };
    assert(res.candidates@ == outv);
    proof {
        assert forall|i: int|
            primary@.len() <= i < res.candidates@.len() implies scanned_match(
            #[trigger] res.candidates@[i],
            query@,
            vectors@,
            res.scanned as int,
        ) by {
            assert(res.candidates@[i] == outv[i]);
        }
    }
    res
}

} // verus!
