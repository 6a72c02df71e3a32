//! Recovery: which segments and which manifest reopening a file yields,
//! and why a crash in the middle of a mutation loses nothing.
use crate::manifest::{manifest_of, ManifestModel};
use crate::segment::{
    all_seg_ok, file_bytes_of, lemma_parse_file, lemma_parse_truncated, parse_one,
    parse_segments, seg_ok, segment_bytes, SegmentHeader, SegmentType,
};
use vstd::prelude::*;

verus! {

/// A segment as a value.
pub type SegView = (SegmentHeader, Seq<u8>);

/// The last manifest among segments that decodes as one.
pub open spec fn last_manifest(segs: Seq<SegView>) -> Option<ManifestModel>
    decreases segs.len(),
{
    if segs.len() == 0 {
        None
    } else if segs.last().0.seg_type == SegmentType::Manifest && manifest_of(segs.last().1) is Some {
        manifest_of(segs.last().1)
    } else {
        last_manifest(segs.drop_last())
    }
}

/// Whether each segment's sequence number is its position.
pub open spec fn log_ordered(segs: Seq<SegView>) -> bool {
    forall|i: int| 0 <= i < segs.len() ==> (#[trigger] segs[i]).0.sequence == i
}

/// The length of the longest prefix, from position `i` on, whose sequence
/// numbers are their positions.
pub open spec fn ordered_len(segs: Seq<SegView>, i: nat) -> nat
    decreases segs.len() - i,
{
    if i < segs.len() && segs[i as int].0.sequence == i {
        ordered_len(segs, i + 1)
    } else {
        i
    }
}

/// The segments of a file that a store takes: those whose sequence number is
/// their position, up to the first that is not.
pub open spec fn ordered_prefix(segs: Seq<SegView>) -> Seq<SegView> {
    segs.subrange(0, ordered_len(segs, 0) as int)
}

/// The manifest that reopening a file recovers.
pub open spec fn recovered_manifest(bytes: Seq<u8>) -> Option<ManifestModel> {
    last_manifest(ordered_prefix(parse_segments(bytes)))
}

/// Whether no segment is a manifest.
pub open spec fn no_manifest(segs: Seq<SegView>) -> bool {
    forall|i: int| 0 <= i < segs.len() ==> (#[trigger] segs[i]).0.seg_type != SegmentType::Manifest
}

pub(crate) proof fn lemma_last_manifest_extend(a: Seq<SegView>, b: Seq<SegView>)
    requires
        no_manifest(b),
    ensures
        last_manifest(a + b) == last_manifest(a),
    decreases b.len(),
{
    if b.len() == 0 {
        assert(a + b =~= a);
    } else {
        assert((a + b).drop_last() =~= a + b.drop_last());
        assert((a + b).last() == b[b.len() - 1]);
        assert(no_manifest(b.drop_last())) by {
            assert forall|i: int| 0 <= i < b.drop_last().len() implies (#[trigger] b.drop_last()[
                i
            ]).0.seg_type != SegmentType::Manifest by {
                assert(b.drop_last()[i] == b[i]);
            }
        }
        lemma_last_manifest_extend(a, b.drop_last());
    }
}

pub(crate) proof fn lemma_ordered_len_ge(segs: Seq<SegView>, i: nat, n: nat)
    requires
        i <= n <= segs.len(),
        forall|j: int| i <= j < n ==> (#[trigger] segs[j]).0.sequence == j,
    ensures
        n <= ordered_len(segs, i) <= segs.len(),
    decreases segs.len() - i,
{
    if i == n {
        lemma_ordered_len_le(segs, i);
    } else {
        assert(segs[i as int].0.sequence == i);
        lemma_ordered_len_ge(segs, i + 1, n);
    }
}

pub(crate) proof fn lemma_ordered_len_le(segs: Seq<SegView>, i: nat)
    requires
        i <= segs.len(),
    ensures
        i <= ordered_len(segs, i) <= segs.len(),
    decreases segs.len() - i,
{
    if i < segs.len() && segs[i as int].0.sequence == i {
        lemma_ordered_len_le(segs, i + 1);
    }
}

pub(crate) proof fn lemma_ordered_len_stop(segs: Seq<SegView>, i: nat)
    requires
        i <= segs.len(),
        forall|j: int| 0 <= j < i ==> (#[trigger] segs[j]).0.sequence == j,
    ensures
        forall|j: int| 0 <= j < ordered_len(segs, i) ==> (#[trigger] segs[j]).0.sequence == j,
        ordered_len(segs, i) == segs.len() || segs[ordered_len(segs, i) as int].0.sequence
            != ordered_len(segs, i),
    decreases segs.len() - i,
{
    if i < segs.len() && segs[i as int].0.sequence == i {
        lemma_ordered_len_stop(segs, i + 1);
    }
}

pub(crate) proof fn lemma_file_bytes_concat(a: Seq<SegView>, b: Seq<SegView>)
    ensures
        file_bytes_of(a + b) == file_bytes_of(a) + file_bytes_of(b),
    decreases a.len(),
{
    if a.len() == 0 {
        assert(a + b =~= b);
        assert(file_bytes_of(a) + file_bytes_of(b) =~= file_bytes_of(b));
    } else {
        assert((a + b).drop_first() =~= a.drop_first() + b);
        lemma_file_bytes_concat(a.drop_first(), b);
        assert((a + b)[0] == a[0]);
        assert(file_bytes_of(a + b) =~= file_bytes_of(a) + file_bytes_of(b));
    }
}

pub(crate) proof fn lemma_file_bytes_push(a: Seq<SegView>, x: SegView)
    ensures
        file_bytes_of(a.push(x)) == file_bytes_of(a) + segment_bytes(x),
{
    lemma_file_bytes_concat(a, seq![x]);
    assert(a + seq![x] =~= a.push(x));
    let one = seq![x];
    assert(one.drop_first() =~= Seq::<SegView>::empty());
    assert(one[0] == x);
    assert(file_bytes_of(one.drop_first()) =~= Seq::<u8>::empty());
    assert(file_bytes_of(one) =~= segment_bytes(x));
}

pub(crate) proof fn lemma_all_ok_concat(a: Seq<SegView>, b: Seq<SegView>)
    requires
        all_seg_ok(a),
        all_seg_ok(b),
    ensures
        all_seg_ok(a + b),
{
    assert forall|i: int| 0 <= i < (a + b).len() implies seg_ok(#[trigger] (a + b)[i].0, (a + b)[i].1) by {
        if i < a.len() {
            assert((a + b)[i] == a[i]);
        } else {
            assert((a + b)[i] == b[i - a.len()]);
        }
    }
}

pub(crate) proof fn lemma_recover_ordered(a: Seq<SegView>, b: Seq<SegView>)
    requires
        log_ordered(a),
        no_manifest(b),
    ensures
        last_manifest(ordered_prefix(a + b)) == last_manifest(a),
{
    let s = a + b;
    assert forall|j: int| 0 <= j < a.len() implies (#[trigger] s[j]).0.sequence == j by {
        assert(s[j] == a[j]);
    }
    lemma_ordered_len_ge(s, 0, a.len());
    let n = ordered_len(s, 0);
    let extra = s.subrange(a.len() as int, n as int);
    assert(ordered_prefix(s) =~= a + extra);
    assert(no_manifest(extra)) by {
        assert forall|i: int| 0 <= i < extra.len() implies (#[trigger] extra[i]).0.seg_type
            != SegmentType::Manifest by {
            assert(extra[i] == b[i]);
        }
    }
    lemma_last_manifest_extend(a, extra);
}

/// Reopening the bytes of a well-formed log gives back every segment, with
/// its checksum, and the manifest that was current.
pub proof fn lemma_reopen_round_trip(log: Seq<SegView>)
    requires
        all_seg_ok(log),
        log_ordered(log),
    ensures
        parse_segments(file_bytes_of(log)) == log,
        ordered_prefix(parse_segments(file_bytes_of(log))) == log,
        recovered_manifest(file_bytes_of(log)) == last_manifest(log),
{
    lemma_parse_file(log, Seq::empty());
    assert(file_bytes_of(log) + Seq::<u8>::empty() =~= file_bytes_of(log));
    let e = Seq::<u8>::empty();
    assert(parse_one(e) is None);
    assert(parse_segments(e) =~= Seq::<SegView>::empty());
    assert(log + Seq::<SegView>::empty() =~= log);
    lemma_ordered_len_ge(log, 0, log.len());
    assert(log.subrange(0, log.len() as int) =~= log);
}

/// A crash after some data segments were written, and anywhere inside the
/// segment that followed (the manifest's included), loses nothing: reopening
/// recovers the manifest that was current before the mutation began.
pub proof fn lemma_crash_recovery(log: Seq<SegView>, written: Seq<SegView>, next: SegView, n: int)
    requires
        all_seg_ok(log),
        log_ordered(log),
        all_seg_ok(written),
        no_manifest(written),
        seg_ok(next.0, next.1),
        0 <= n < segment_bytes(next).len(),
    ensures
        recovered_manifest(file_bytes_of(log + written) + segment_bytes(next).subrange(0, n))
            == last_manifest(log),
{
    let t = segment_bytes(next).subrange(0, n);
    lemma_all_ok_concat(log, written);
    lemma_parse_file(log + written, t);
    lemma_parse_truncated(next.0, next.1, n);
    assert((log + written) + parse_segments(t) =~= log + written);
    lemma_recover_ordered(log, written);
}



} // verus!
