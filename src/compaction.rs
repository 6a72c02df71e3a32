//! Compaction planning: which vector segments to rewrite, which vectors
//! survive, and which deletion entries are settled by the rewrite.
//!
//! A vector segment is a candidate when it has dead vectors and either their
//! share (in thousandths) reaches the policy's ratio or their number reaches
//! the policy's count. Candidates are retired; their live vectors move to one
//! fresh segment; their deletion entries are dropped.
use crate::manifest::DeadEntry;
use crate::vectors::{clone_record, codes_have_dim, VectorRecord};
use vstd::prelude::*;

verus! {

/// The records of a vector segment as values.
pub type RecordsView = Seq<(u64, Seq<u8>)>;

/// A vector segment as a value: its sequence number and records.
pub type VecSegView = (u64, RecordsView);

/// The decoded contents of a live vector segment.
#[derive(Clone, Debug)]
pub struct StoredVecSegment {
    pub seq: u64,
    pub records: Vec<VectorRecord>,
}

impl View for StoredVecSegment {
    type V = VecSegView;

    open spec fn view(&self) -> VecSegView {
        (self.seq, self.records@.map_values(|r: VectorRecord| r@))
    }
}

/// The views of vector segments.
pub open spec fn segs_view(s: Seq<StoredVecSegment>) -> Seq<VecSegView> {
    s.map_values(|x: StoredVecSegment| x@)
}

/// When a segment is rewritten.
#[derive(Clone, Copy, Debug, PartialEq, Eq, Structural)]
pub struct CompactionPolicy {
    /// Share of dead vectors, in thousandths, that makes a segment a candidate.
    pub dead_permille: u32,
    /// Number of dead vectors that makes a segment a candidate.
    pub tombstone_threshold: u32,
}

/// Number of deletion entries for segment `seq`.
pub open spec fn dead_count(dead: Seq<DeadEntry>, seq: u64) -> nat
    decreases dead.len(),
{
    if dead.len() == 0 {
        0
    } else {
        dead_count(dead.drop_last(), seq) + if dead.last().segment == seq {
            1nat
        } else {
            0nat
        }
    }
}

/// Whether a segment of `n` vectors, `dc` of them dead, is rewritten.
pub open spec fn is_candidate(p: CompactionPolicy, n: nat, dc: nat) -> bool {
    dc > 0 && (dc * 1000 >= p.dead_permille * n || dc >= p.tombstone_threshold)
}

/// Whether a vector segment is a compaction candidate.
pub open spec fn seg_candidate(p: CompactionPolicy, s: VecSegView, dead: Seq<DeadEntry>) -> bool {
    is_candidate(p, s.1.len(), dead_count(dead, s.0))
}

/// Whether some segment with sequence number `seq` is a candidate.
pub open spec fn candidate_seq(
    p: CompactionPolicy,
    segs: Seq<VecSegView>,
    dead: Seq<DeadEntry>,
    seq: u64,
) -> bool {
    exists|k: int| 0 <= k < segs.len() && (#[trigger] segs[k]).0 == seq && seg_candidate(p, segs[k], dead)
}

/// Whether any segment is a candidate.
pub open spec fn has_candidate(p: CompactionPolicy, segs: Seq<VecSegView>, dead: Seq<DeadEntry>) -> bool {
    exists|k: int| 0 <= k < segs.len() && seg_candidate(p, #[trigger] segs[k], dead)
}

/// The records of a segment that no deletion entry names.
pub open spec fn live_records(seq: u64, r: RecordsView, dead: Seq<DeadEntry>) -> RecordsView
    decreases r.len(),
{
    if r.len() == 0 {
        r
    } else {
        let rest = live_records(seq, r.drop_last(), dead);
        if dead.contains(DeadEntry { segment: seq, id: r.last().0 }) {
            rest
        } else {
            rest.push(r.last())
        }
    }
}

/// The segments that are not candidates, in order.
pub open spec fn kept_segments(p: CompactionPolicy, segs: Seq<VecSegView>, dead: Seq<DeadEntry>) -> Seq<
    VecSegView,
>
    decreases segs.len(),
{
    if segs.len() == 0 {
        segs
    } else {
        let rest = kept_segments(p, segs.drop_last(), dead);
        if seg_candidate(p, segs.last(), dead) {
            rest
        } else {
            rest.push(segs.last())
        }
    }
}

/// The live records of the candidates, in order.
pub open spec fn rewritten_records(
    p: CompactionPolicy,
    segs: Seq<VecSegView>,
    dead: Seq<DeadEntry>,
) -> RecordsView
    decreases segs.len(),
{
    if segs.len() == 0 {
        Seq::empty()
    } else {
        let rest = rewritten_records(p, segs.drop_last(), dead);
        if seg_candidate(p, segs.last(), dead) {
            rest + live_records(segs.last().0, segs.last().1, dead)
        } else {
            rest
        }
    }
}

/// The deletion entries of segments that are not rewritten.
pub open spec fn remaining_dead(p: CompactionPolicy, segs: Seq<VecSegView>, dead: Seq<DeadEntry>) -> Seq<
    DeadEntry,
> {
    dead_filter(dead, |e: DeadEntry| !candidate_seq(p, segs, dead, e.segment))
}

/// The entries of `d` that satisfy `keep`, in order.
pub open spec fn dead_filter(d: Seq<DeadEntry>, keep: spec_fn(DeadEntry) -> bool) -> Seq<DeadEntry>
    decreases d.len(),
{
    if d.len() == 0 {
        d
    } else {
        let rest = dead_filter(d.drop_last(), keep);
        if keep(d.last()) {
            rest.push(d.last())
        } else {
            rest
        }
    }
}

/// The vector segments after compaction: the kept ones, then a fresh one
/// with sequence number `fresh` holding the rewritten records, if any.
pub open spec fn compacted_segments(
    p: CompactionPolicy,
    segs: Seq<VecSegView>,
    dead: Seq<DeadEntry>,
    fresh: u64,
) -> Seq<VecSegView> {
    let r = rewritten_records(p, segs, dead);
    if r.len() == 0 {
        kept_segments(p, segs, dead)
    } else {
        kept_segments(p, segs, dead).push((fresh, r))
    }
}

/// The number of deletion entries that a compaction settles.
pub open spec fn settled_count(p: CompactionPolicy, segs: Seq<VecSegView>, dead: Seq<DeadEntry>) -> int {
    dead.len() - remaining_dead(p, segs, dead).len()
}

/// Whether the sequence numbers of the segments are distinct.
pub open spec fn distinct_seqs(segs: Seq<VecSegView>) -> bool {
    forall|a: int, b: int| 0 <= a < b < segs.len() ==> (#[trigger] segs[a]).0 != (#[trigger] segs[b]).0
}

pub proof fn lemma_dead_filter_all(d: Seq<DeadEntry>, keep: spec_fn(DeadEntry) -> bool)
    requires
        forall|i: int| 0 <= i < d.len() ==> keep(#[trigger] d[i]),
    ensures
        dead_filter(d, keep) == d,
    decreases d.len(),
{
    if d.len() > 0 {
        assert(keep(d[d.len() - 1]));
        lemma_dead_filter_all(d.drop_last(), keep);
        assert(d.drop_last().push(d.last()) =~= d);
    }
}

proof fn lemma_dead_count_filter(d: Seq<DeadEntry>, keep: spec_fn(DeadEntry) -> bool, seq: u64)
    requires
        forall|e: DeadEntry| e.segment == seq ==> #[trigger] keep(e),
    ensures
        dead_count(dead_filter(d, keep), seq) == dead_count(d, seq),
    decreases d.len(),
{
    if d.len() > 0 {
        lemma_dead_count_filter(d.drop_last(), keep, seq);
        let rest = dead_filter(d.drop_last(), keep);
        if keep(d.last()) {
            assert(rest.push(d.last()).drop_last() =~= rest);
        }
    }
}

proof fn lemma_dead_count_zero(d: Seq<DeadEntry>, seq: u64)
    requires
        forall|i: int| 0 <= i < d.len() ==> (#[trigger] d[i]).segment != seq,
    ensures
        dead_count(d, seq) == 0,
    decreases d.len(),
{
    if d.len() > 0 {
        assert(d[d.len() - 1].segment != seq);
        lemma_dead_count_zero(d.drop_last(), seq);
    }
}

pub proof fn lemma_dead_filter_subset(d: Seq<DeadEntry>, keep: spec_fn(DeadEntry) -> bool)
    ensures
        forall|i: int|
            0 <= i < dead_filter(d, keep).len() ==> d.contains(#[trigger] dead_filter(d, keep)[i]),
    decreases d.len(),
{
    if d.len() > 0 {
        lemma_dead_filter_subset(d.drop_last(), keep);
        let rest = dead_filter(d.drop_last(), keep);
        assert forall|i: int| 0 <= i < dead_filter(d, keep).len() implies d.contains(
            #[trigger] dead_filter(d, keep)[i],
        ) by {
            if i < rest.len() {
                assert(dead_filter(d, keep)[i] == rest[i]);
                let j = choose|j: int| 0 <= j < d.drop_last().len() && d.drop_last()[j] == rest[i];
                assert(d[j] == rest[i]);
            } else {
                assert(d[d.len() - 1] == d.last());
            }
        }
    }
}

proof fn lemma_kept_members(p: CompactionPolicy, segs: Seq<VecSegView>, dead: Seq<DeadEntry>)
    ensures
        forall|k: int|
            0 <= k < kept_segments(p, segs, dead).len() ==> exists|j: int|
                0 <= j < segs.len() && segs[j] == #[trigger] kept_segments(p, segs, dead)[k]
                    && !seg_candidate(p, segs[j], dead),
    decreases segs.len(),
{
    if segs.len() > 0 {
        lemma_kept_members(p, segs.drop_last(), dead);
        let rest = kept_segments(p, segs.drop_last(), dead);
        assert forall|k: int| 0 <= k < kept_segments(p, segs, dead).len() implies exists|j: int|
            0 <= j < segs.len() && segs[j] == #[trigger] kept_segments(p, segs, dead)[k]
                && !seg_candidate(p, segs[j], dead) by {
            if k < rest.len() {
                assert(kept_segments(p, segs, dead)[k] == rest[k]);
                let j = choose|j: int|
                    0 <= j < segs.drop_last().len() && segs.drop_last()[j] == #[trigger] rest[k]
                        && !seg_candidate(p, segs.drop_last()[j], dead);
                assert(segs[j] == segs.drop_last()[j]);
            } else {
                assert(segs[segs.len() - 1] == segs.last());
            }
        }
    }
}

/// The kept segments are segments of the input, and keep their sequence
/// numbers distinct.
pub proof fn lemma_kept_distinct(p: CompactionPolicy, segs: Seq<VecSegView>, dead: Seq<DeadEntry>)
    requires
        distinct_seqs(segs),
    ensures
        distinct_seqs(kept_segments(p, segs, dead)),
        forall|k: int|
            0 <= k < kept_segments(p, segs, dead).len() ==> segs.contains(
                #[trigger] kept_segments(p, segs, dead)[k],
            ),
    decreases segs.len(),
{
    lemma_kept_members(p, segs, dead);
    if segs.len() > 0 {
        let front = segs.drop_last();
        assert(distinct_seqs(front)) by {
            assert forall|a: int, b: int| 0 <= a < b < front.len() implies (#[trigger] front[a]).0
                != (#[trigger] front[b]).0 by {
                assert(segs[a] == front[a] && segs[b] == front[b]);
            }
        }
        lemma_kept_distinct(p, front, dead);
        lemma_kept_members(p, front, dead);
        let rest = kept_segments(p, front, dead);
        let kept = kept_segments(p, segs, dead);
        if !seg_candidate(p, segs.last(), dead) {
            assert forall|a: int, b: int| 0 <= a < b < kept.len() implies (#[trigger] kept[a]).0
                != (#[trigger] kept[b]).0 by {
                if b < rest.len() {
                    assert(kept[a] == rest[a] && kept[b] == rest[b]);
                } else {
                    assert(kept[b] == segs.last());
                    assert(kept[a] == rest[a]);
                    let j = choose|j: int|
                        0 <= j < front.len() && front[j] == #[trigger] rest[a] && !seg_candidate(
                            p,
                            front[j],
                            dead,
                        );
                    assert(segs[j] == front[j]);
                    assert(segs[j].0 != segs[segs.len() - 1].0);
                }
            }
        }
    }
}

/// When no segment is a candidate, every segment is kept, nothing is
/// rewritten and no deletion entry is settled.
pub proof fn lemma_no_candidate(p: CompactionPolicy, segs: Seq<VecSegView>, dead: Seq<DeadEntry>)
    requires
        kept_segments(p, segs, dead).len() == segs.len(),
    ensures
        !has_candidate(p, segs, dead),
        kept_segments(p, segs, dead) == segs,
        rewritten_records(p, segs, dead).len() == 0,
        remaining_dead(p, segs, dead) == dead,
    decreases segs.len(),
{
    lemma_kept_len(p, segs, dead);
    if segs.len() > 0 {
        let front = segs.drop_last();
        lemma_kept_len(p, front, dead);
        assert(!seg_candidate(p, segs.last(), dead));
        lemma_no_candidate(p, front, dead);
        assert(front.push(segs.last()) =~= segs);
        assert forall|k: int| 0 <= k < segs.len() implies !seg_candidate(p, #[trigger] segs[k], dead) by {
            if k < front.len() {
                assert(segs[k] == front[k]);
                if seg_candidate(p, front[k], dead) {
                    assert(has_candidate(p, front, dead));
                }
            }
        }
    }
    let keep = |e: DeadEntry| !candidate_seq(p, segs, dead, e.segment);
    assert forall|i: int| 0 <= i < dead.len() implies keep(#[trigger] dead[i]) by {
        if candidate_seq(p, segs, dead, dead[i].segment) {
            let m = choose|m: int| 0 <= m < segs.len() && (#[trigger] segs[m]).0 == dead[i].segment
                && seg_candidate(p, segs[m], dead);
            assert(has_candidate(p, segs, dead)) by {
                assert(seg_candidate(p, segs[m], dead));
            }
        }
    }
    lemma_dead_filter_all(dead, keep);
}

/// When some segment is a candidate, fewer segments are kept than there were.
pub proof fn lemma_no_candidate_kept(p: CompactionPolicy, segs: Seq<VecSegView>, dead: Seq<DeadEntry>)
    requires
        !has_candidate(p, segs, dead),
    ensures
        kept_segments(p, segs, dead).len() == segs.len(),
    decreases segs.len(),
{
    if segs.len() > 0 {
        let front = segs.drop_last();
        assert(!has_candidate(p, front, dead)) by {
            if has_candidate(p, front, dead) {
                let k = choose|k: int| 0 <= k < front.len() && seg_candidate(p, #[trigger] front[k], dead);
                assert(segs[k] == front[k]);
            }
        }
        lemma_no_candidate_kept(p, front, dead);
        assert(!seg_candidate(p, segs[segs.len() - 1], dead));
    }
}

/// Filtering never lengthens.
pub proof fn lemma_dead_filter_len(d: Seq<DeadEntry>, keep: spec_fn(DeadEntry) -> bool)
    ensures
        dead_filter(d, keep).len() <= d.len(),
    decreases d.len(),
{
    if d.len() > 0 {
        lemma_dead_filter_len(d.drop_last(), keep);
    }
}

proof fn lemma_kept_len(p: CompactionPolicy, segs: Seq<VecSegView>, dead: Seq<DeadEntry>)
    ensures
        kept_segments(p, segs, dead).len() <= segs.len(),
    decreases segs.len(),
{
    if segs.len() > 0 {
        lemma_kept_len(p, segs.drop_last(), dead);
    }
}

proof fn lemma_live_records_dims(seq: u64, r: RecordsView, dead: Seq<DeadEntry>, dim: nat)
    requires
        codes_have_dim(r, dim),
    ensures
        codes_have_dim(live_records(seq, r, dead), dim),
    decreases r.len(),
{
    if r.len() > 0 {
        let front = r.drop_last();
        assert(codes_have_dim(front, dim)) by {
            assert forall|i: int| 0 <= i < front.len() implies (#[trigger] front[i]).1.len() == dim by {
                assert(front[i] == r[i]);
            }
        }
        lemma_live_records_dims(seq, front, dead, dim);
        assert(r.last() == r[r.len() - 1]);
    }
}

/// The rewritten records have the dimension that every segment's records have.
pub proof fn lemma_rewritten_dims(p: CompactionPolicy, segs: Seq<VecSegView>, dead: Seq<DeadEntry>, dim: nat)
    requires
        forall|k: int| 0 <= k < segs.len() ==> codes_have_dim((#[trigger] segs[k]).1, dim),
    ensures
        codes_have_dim(rewritten_records(p, segs, dead), dim),
    decreases segs.len(),
{
    if segs.len() > 0 {
        let front = segs.drop_last();
        assert forall|k: int| 0 <= k < front.len() implies codes_have_dim((#[trigger] front[k]).1, dim) by {
            assert(front[k] == segs[k]);
        }
        lemma_rewritten_dims(p, front, dead, dim);
        let last = segs.last();
        assert(codes_have_dim(segs[segs.len() - 1].1, dim));
        lemma_live_records_dims(last.0, last.1, dead, dim);
        let a = rewritten_records(p, front, dead);
        let b = live_records(last.0, last.1, dead);
        assert forall|i: int| 0 <= i < (a + b).len() implies (#[trigger] (a + b)[i]).1.len() == dim by {
            if i < a.len() {
                assert((a + b)[i] == a[i]);
            } else {
                assert((a + b)[i] == b[i - a.len()]);
            }
        }
    }
}

/// Compacting a compacted store settles nothing more: a second run right
/// after the first finds no candidate and reclaims no bytes.
pub proof fn lemma_compaction_idempotent(
    p: CompactionPolicy,
    segs: Seq<VecSegView>,
    dead: Seq<DeadEntry>,
    fresh: u64,
)
    requires
        distinct_seqs(segs),
        forall|k: int| 0 <= k < segs.len() ==> (#[trigger] segs[k]).0 != fresh,
        forall|i: int| 0 <= i < dead.len() ==> (#[trigger] dead[i]).segment != fresh,
    ensures
        !has_candidate(
            p,
            compacted_segments(p, segs, dead, fresh),
            remaining_dead(p, segs, dead),
        ),
        settled_count(
            p,
            compacted_segments(p, segs, dead, fresh),
            remaining_dead(p, segs, dead),
        ) == 0,
{
    let segs2 = compacted_segments(p, segs, dead, fresh);
    let dead2 = remaining_dead(p, segs, dead);
    let keep = |e: DeadEntry| !candidate_seq(p, segs, dead, e.segment);
    let kept = kept_segments(p, segs, dead);
    lemma_kept_members(p, segs, dead);
    lemma_dead_filter_subset(dead, keep);
    assert forall|k: int| 0 <= k < segs2.len() implies !seg_candidate(p, #[trigger] segs2[k], dead2) by {
        if k < kept.len() {
            assert(segs2[k] == kept[k]);
            let j = choose|j: int|
                0 <= j < segs.len() && segs[j] == #[trigger] kept[k] && !seg_candidate(p, segs[j], dead);
            let q = segs[j].0;
            assert forall|e: DeadEntry| e.segment == q implies #[trigger] keep(e) by {
                if candidate_seq(p, segs, dead, q) {
                    let m = choose|m: int|
                        0 <= m < segs.len() && (#[trigger] segs[m]).0 == q && seg_candidate(
                            p,
                            segs[m],
                            dead,
                        );
                    if m < j {
                        assert(segs[m].0 != segs[j].0);
                    } else if m > j {
                        assert(segs[j].0 != segs[m].0);
                    }
                }
            }
            lemma_dead_count_filter(dead, keep, q);
        } else {
            assert(segs2[k].0 == fresh);
            assert forall|i: int| 0 <= i < dead2.len() implies (#[trigger] dead2[i]).segment
                != fresh by {
                assert(dead.contains(dead2[i]));
            }
            lemma_dead_count_zero(dead2, fresh);
        }
    }
    let keep2 = |e: DeadEntry| !candidate_seq(p, segs2, dead2, e.segment);
    assert forall|i: int| 0 <= i < dead2.len() implies keep2(#[trigger] dead2[i]) by {
        if candidate_seq(p, segs2, dead2, dead2[i].segment) {
            let m = choose|m: int|
                0 <= m < segs2.len() && (#[trigger] segs2[m]).0 == dead2[i].segment
                    && seg_candidate(p, segs2[m], dead2);
            assert(!seg_candidate(p, segs2[m], dead2));
        }
    }
    lemma_dead_filter_all(dead2, keep2);
}

/// Counts the deletion entries of segment `seq`.
pub fn count_dead(dead: &Vec<DeadEntry>, seq: u64) -> (r: u64)
    ensures
        r == dead_count(dead@, seq),
{
    let mut c: u64 = 0;
    let mut i: usize = 0;
    while i < dead.len()
        invariant
            i <= dead@.len(),
            c == dead_count(dead@.subrange(0, i as int), seq),
            c <= i,
        decreases dead@.len() - i,
    {
        assert(dead@.subrange(0, i + 1).drop_last() =~= dead@.subrange(0, i as int));
        if dead[i].segment == seq {
            c = c + 1;
        }
        i = i + 1;
    }
    assert(dead@.subrange(0, dead@.len() as int) =~= dead@);
    c
}

/// Whether `dead` names vector `id` of segment `seq`.
pub fn names_dead(dead: &Vec<DeadEntry>, seq: u64, id: u64) -> (r: bool)
    ensures
        r == dead@.contains(DeadEntry { segment: seq, id }),
{
    let mut i: usize = 0;
    while i < dead.len()
        invariant
            i <= dead@.len(),
            forall|j: int| 0 <= j < i ==> dead@[j] != (DeadEntry { segment: seq, id }),
        decreases dead@.len() - i,
    {
        if dead[i].segment == seq && dead[i].id == id {
            assert(dead@[i as int] == DeadEntry { segment: seq, id });
            return true;
        }
        i = i + 1;
    }
    false
}

/// Whether a vector segment is a compaction candidate.
pub fn segment_is_candidate(p: CompactionPolicy, s: &StoredVecSegment, dead: &Vec<DeadEntry>) -> (r: bool)
    ensures
        r == seg_candidate(p, s@, dead@),
{
    let dc = count_dead(dead, s.seq);
    let n = s.records.len();
    assert((dc as int) * 1000 <= 0xFFFF_FFFF_FFFF_FFFF * 1000) by (nonlinear_arith)
        requires
            dc <= 0xFFFF_FFFF_FFFF_FFFF,
    ;
    assert((p.dead_permille as int) * (n as int) <= 0xFFFF_FFFF * 0xFFFF_FFFF_FFFF_FFFF)
        by (nonlinear_arith)
        requires
            p.dead_permille <= 0xFFFF_FFFF,
            n <= 0xFFFF_FFFF_FFFF_FFFF,
    ;
    dc > 0 && ((dc as u128) * 1000 >= (p.dead_permille as u128) * (n as u128) || dc
        >= p.tombstone_threshold as u64)
}

/// The live records of a segment, copied.
pub fn live_records_of(s: &StoredVecSegment, dead: &Vec<DeadEntry>) -> (r: Vec<VectorRecord>)
    ensures
        r@.map_values(|x: VectorRecord| x@) == live_records(s.seq, s@.1, dead@),
{
    let ghost rv = s@.1;
    let mut out: Vec<VectorRecord> = Vec::new();
    let mut i: usize = 0;
    while i < s.records.len()
        invariant
            i <= s.records@.len(),
            rv == s.records@.map_values(|x: VectorRecord| x@),
            out@.map_values(|x: VectorRecord| x@) == live_records(s.seq, rv.subrange(0, i as int), dead@),
        decreases s.records@.len() - i,
    {
        assert(rv.subrange(0, i + 1).drop_last() =~= rv.subrange(0, i as int));
        let rec = &s.records[i];
        let ghost before = out@.map_values(|x: VectorRecord| x@);
        if !names_dead(dead, s.seq, rec.id) {
            out.push(clone_record(rec));
            assert(out@.map_values(|x: VectorRecord| x@) =~= before.push(rec@));
        }
        i = i + 1;
    }
    assert(rv.subrange(0, rv.len() as int) =~= rv);
    out
}

/// Whether `x` is among `v`.
pub fn contains_u64(v: &Vec<u64>, x: u64) -> (r: bool)
    ensures
        r == v@.contains(x),
{
    let mut j: usize = 0;
    while j < v.len()
        invariant
            j <= v@.len(),
            forall|w: int| 0 <= w < j ==> v@[w] != x,
        decreases v@.len() - j,
    {
        if v[j] == x {
            assert(v@[j as int] == x);
            return true;
        }
        j = j + 1;
    }
    false
}

/// What a compaction keeps and writes.
pub struct CompactionPlan {
    /// The segments that are not candidates.
    pub kept: Vec<StoredVecSegment>,
    /// The live records of the candidates, for one fresh segment.
    pub rewritten: Vec<VectorRecord>,
    /// The deletion entries of the kept segments.
    pub remaining: Vec<DeadEntry>,
    /// Number of segments retired.
    pub retired: u64,
}

fn clone_segment_data(s: &StoredVecSegment) -> (r: StoredVecSegment)
    ensures
        r@ == s@,
{
    let mut records: Vec<VectorRecord> = Vec::new();
    let mut i: usize = 0;
    while i < s.records.len()
        invariant
            i <= s.records@.len(),
            records@.map_values(|x: VectorRecord| x@) =~= s.records@.subrange(0, i as int).map_values(
                |x: VectorRecord| x@,
            ),
        decreases s.records@.len() - i,
    {
        let ghost old_v = records@.map_values(|x: VectorRecord| x@);
        let c = clone_record(&s.records[i]);
        records.push(c);
        assert(records@.map_values(|x: VectorRecord| x@) =~= old_v.push(s.records@[i as int]@));
        assert(s.records@.subrange(0, i + 1).map_values(|x: VectorRecord| x@) =~= s.records@.subrange(
            0,
            i as int,
        ).map_values(|x: VectorRecord| x@).push(s.records@[i as int]@));
        i = i + 1;
    }
    assert(s.records@.subrange(0, s.records@.len() as int) =~= s.records@);
    StoredVecSegment { seq: s.seq, records }
}

/// Decides what a compaction of `segs` under `dead` keeps, rewrites and settles.
pub fn plan_compaction(p: CompactionPolicy, segs: &Vec<StoredVecSegment>, dead: &Vec<DeadEntry>) -> (r:
    CompactionPlan)
    ensures
        segs_view(r.kept@) == kept_segments(p, segs_view(segs@), dead@),
        r.rewritten@.map_values(|x: VectorRecord| x@) == rewritten_records(p, segs_view(segs@), dead@),
        r.remaining@ == remaining_dead(p, segs_view(segs@), dead@),
        r.retired <= segs@.len(),
        r.retired == segs@.len() - kept_segments(p, segs_view(segs@), dead@).len(),
{
    let ghost sv = segs_view(segs@);
    let mut kept: Vec<StoredVecSegment> = Vec::new();
    let mut rewritten: Vec<VectorRecord> = Vec::new();
    let mut cands: Vec<u64> = Vec::new();
    let mut k: usize = 0;
    while k < segs.len()
        invariant
            k <= segs@.len(),
            sv == segs_view(segs@),
            segs_view(kept@) == kept_segments(p, sv.subrange(0, k as int), dead@),
            rewritten@.map_values(|x: VectorRecord| x@) == rewritten_records(p, sv.subrange(0, k as int), dead@),
            kept@.len() + cands@.len() == k,
            forall|q: u64| cands@.contains(q) <==> candidate_seq(p, sv.subrange(0, k as int), dead@, q),
        decreases segs@.len() - k,
    {
        let ghost pre = sv.subrange(0, k as int);
        let ghost post = sv.subrange(0, k + 1);
        assert(post.drop_last() =~= pre);
        assert(post.last() == segs@[k as int]@);
        let s = &segs[k];
        let ghost kept0 = kept@;
        let ghost rw0 = rewritten@.map_values(|x: VectorRecord| x@);
        let ghost cands0 = cands@;
        if segment_is_candidate(p, s, dead) {
            let live = live_records_of(s, dead);
            let mut i: usize = 0;
            while i < live.len()
                invariant
                    i <= live@.len(),
                    rewritten@.map_values(|x: VectorRecord| x@) =~= rw0 + live@.subrange(0, i as int).map_values(
                        |x: VectorRecord| x@,
                    ),
                decreases live@.len() - i,
            {
                let ghost old_v = rewritten@.map_values(|x: VectorRecord| x@);
                let c = clone_record(&live[i]);
                rewritten.push(c);
                assert(rewritten@.map_values(|x: VectorRecord| x@) =~= old_v.push(live@[i as int]@));
                assert(live@.subrange(0, i + 1).map_values(|x: VectorRecord| x@) =~= live@.subrange(
                    0,
                    i as int,
                ).map_values(|x: VectorRecord| x@).push(live@[i as int]@));
                i = i + 1;
            }
            assert(live@.subrange(0, live@.len() as int) =~= live@);
            cands.push(s.seq);
            proof {
                assert forall|q: u64| cands@.contains(q) <==> candidate_seq(p, post, dead@, q) by {
                    if cands@.contains(q) {
                        if q == s.seq {
                            assert(post[k as int] == s@);
                        } else {
                            let w = choose|w: int| 0 <= w < cands@.len() && cands@[w] == q;
                            assert(w < cands0.len());
                            assert(cands0[w] == q);
                            assert(cands0.contains(q));
                            assert(candidate_seq(p, pre, dead@, q));
                            let m = choose|m: int| 0 <= m < pre.len() && (#[trigger] pre[m]).0 == q
                                && seg_candidate(p, pre[m], dead@);
                            assert(post[m] == pre[m]);
                        }
                    }
                    if candidate_seq(p, post, dead@, q) {
                        let m = choose|m: int| 0 <= m < post.len() && (#[trigger] post[m]).0 == q
                            && seg_candidate(p, post[m], dead@);
                        if m < k {
                            assert(post[m] == pre[m]);
                            assert(cands0.contains(q));
                            let w = choose|w: int| 0 <= w < cands0.len() && cands0[w] == q;
                            assert(cands@[w] == q);
                        } else {
                            assert(cands@[cands@.len() - 1] == q);
                        }
                    }
                }
            }
        } else {
            kept.push(clone_segment_data(s));
            assert(segs_view(kept@) =~= segs_view(kept0).push(s@));
            proof {
                assert forall|q: u64| cands@.contains(q) <==> candidate_seq(p, post, dead@, q) by {
                    if candidate_seq(p, post, dead@, q) {
                        let m = choose|m: int| 0 <= m < post.len() && (#[trigger] post[m]).0 == q
                            && seg_candidate(p, post[m], dead@);
                        if m < k {
                            assert(post[m] == pre[m]);
                        }
                    }
                    if cands@.contains(q) {
                        let m = choose|m: int| 0 <= m < pre.len() && (#[trigger] pre[m]).0 == q
                            && seg_candidate(p, pre[m], dead@);
                        assert(post[m] == pre[m]);
                    }
                }
            }
        }
        k = k + 1;
    }
    assert(sv.subrange(0, segs@.len() as int) =~= sv);
    let mut remaining: Vec<DeadEntry> = Vec::new();
    let mut i: usize = 0;
    while i < dead.len()
        invariant
            i <= dead@.len(),
            forall|q: u64| cands@.contains(q) <==> candidate_seq(p, sv, dead@, q),
            remaining@ == dead_filter(
                dead@.subrange(0, i as int),
                |e: DeadEntry| !candidate_seq(p, sv, dead@, e.segment),
            ),
        decreases dead@.len() - i,
    {
        assert(dead@.subrange(0, i + 1).drop_last() =~= dead@.subrange(0, i as int));
        let e = dead[i];
        if !contains_u64(&cands, e.segment) {
            remaining.push(e);
        }
        i = i + 1;
    }
    assert(dead@.subrange(0, dead@.len() as int) =~= dead@);
    CompactionPlan { kept, rewritten, remaining, retired: cands.len() as u64 }
}

} // verus!
