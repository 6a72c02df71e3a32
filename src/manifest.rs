//! The manifest: the authoritative map from logical structures to segments.
//!
//! A manifest is stored as the payload of a manifest segment, as 64-bit
//! little-endian words:
//!
//! ```text
//! generation, dim, n_vec, vec_segments[n_vec],
//! n_dead, (segment, id)[n_dead],
//! six pointers of (segment_id, offset, length)
//! ```
use crate::codec::{get_words, lemma_words_round_trip, put_words, words_bytes, words_of};
use vstd::prelude::*;

verus! {

/// Number of words that hold the six logical pointers.
pub const POINTER_WORDS: usize = 18;

/// A segment-relative pointer.
#[derive(Clone, Copy, Debug, PartialEq, Eq, Structural)]
pub struct SegmentPtr {
    pub segment_id: u64,
    pub offset: u64,
    pub length: u64,
}

/// The logical pointers of a manifest.
#[derive(Clone, Copy, Debug, PartialEq, Eq, Structural)]
pub struct ManifestPointers {
    pub centroid: SegmentPtr,
    pub entrypoint: SegmentPtr,
    pub top_layer: SegmentPtr,
    pub hot_cache: SegmentPtr,
    pub quant_dict: SegmentPtr,
    pub prefetch_map: SegmentPtr,
}

/// A vector that a deletion marker retired: the vector segment that holds it, and its id.
#[derive(Clone, Copy, Debug, PartialEq, Eq, Structural)]
pub struct DeadEntry {
    pub segment: u64,
    pub id: u64,
}

/// The manifest as a value.
pub struct ManifestModel {
    pub generation: u64,
    pub dim: u32,
    pub vec_segments: Seq<u64>,
    pub dead: Seq<DeadEntry>,
    pub pointers: ManifestPointers,
}

/// A manifest: which vector segments are live, which of their vectors are
/// deleted, and where the index structures are.
#[derive(Clone, Debug)]
pub struct Manifest {
    /// Incremented by every mutation.
    pub generation: u64,
    /// Dimension of every vector in the store.
    pub dim: u32,
    /// Sequence numbers of the live vector segments.
    pub vec_segments: Vec<u64>,
    /// Deleted vectors not yet compacted away.
    pub dead: Vec<DeadEntry>,
    /// Logical pointers.
    pub pointers: ManifestPointers,
}

impl View for Manifest {
    type V = ManifestModel;

    open spec fn view(&self) -> ManifestModel {
        ManifestModel {
            generation: self.generation,
            dim: self.dim,
            vec_segments: self.vec_segments@,
            dead: self.dead@,
            pointers: self.pointers,
        }
    }
}

/// The words of the pointers.
pub open spec fn pointer_words(p: ManifestPointers) -> Seq<u64> {
    seq![
        p.centroid.segment_id, p.centroid.offset, p.centroid.length,
        p.entrypoint.segment_id, p.entrypoint.offset, p.entrypoint.length,
        p.top_layer.segment_id, p.top_layer.offset, p.top_layer.length,
        p.hot_cache.segment_id, p.hot_cache.offset, p.hot_cache.length,
        p.quant_dict.segment_id, p.quant_dict.offset, p.quant_dict.length,
        p.prefetch_map.segment_id, p.prefetch_map.offset, p.prefetch_map.length,
    ]
}

/// The pointers that 18 words hold.
pub open spec fn pointers_of(w: Seq<u64>) -> ManifestPointers {
    ManifestPointers {
        centroid: SegmentPtr { segment_id: w[0], offset: w[1], length: w[2] },
        entrypoint: SegmentPtr { segment_id: w[3], offset: w[4], length: w[5] },
        top_layer: SegmentPtr { segment_id: w[6], offset: w[7], length: w[8] },
        hot_cache: SegmentPtr { segment_id: w[9], offset: w[10], length: w[11] },
        quant_dict: SegmentPtr { segment_id: w[12], offset: w[13], length: w[14] },
        prefetch_map: SegmentPtr { segment_id: w[15], offset: w[16], length: w[17] },
    }
}

/// The words of the deletion list: segment, then id, for each entry.
pub open spec fn dead_words(d: Seq<DeadEntry>) -> Seq<u64> {
    Seq::new(
        2 * d.len(),
        |i: int|
            if i % 2 == 0 {
                d[i / 2].segment
            } else {
                d[i / 2].id
            },
    )
}

/// The deletion list that `2 * n` words hold.
pub open spec fn dead_of(w: Seq<u64>, n: nat) -> Seq<DeadEntry> {
    Seq::new(n, |i: int| DeadEntry { segment: w[2 * i], id: w[2 * i + 1] })
}

/// The words of a manifest.
pub open spec fn manifest_words(m: ManifestModel) -> Seq<u64> {
    seq![m.generation, m.dim as u64, m.vec_segments.len() as u64] + m.vec_segments + seq![
        m.dead.len() as u64,
    ] + dead_words(m.dead) + pointer_words(m.pointers)
}

/// The bytes of a manifest segment's payload.
pub open spec fn manifest_bytes(m: ManifestModel) -> Seq<u8> {
    words_bytes(manifest_words(m))
}

/// Whether words have the shape of a manifest.
pub open spec fn manifest_shape(w: Seq<u64>) -> bool {
    &&& w.len() >= 4
    &&& w[1] <= u32::MAX
    &&& 3 + w[2] < w.len()
    &&& w.len() == 4 + w[2] + 2 * w[3 + w[2]] + POINTER_WORDS
}

/// The manifest that words hold, if they have the shape of one.
pub open spec fn manifest_of_words(w: Seq<u64>) -> Option<ManifestModel> {
    if manifest_shape(w) {
        let nv = w[2] as int;
        let nd = w[3 + nv] as int;
        let base = 4 + nv;
        Some(
            ManifestModel {
                generation: w[0],
                dim: w[1] as u32,
                vec_segments: w.subrange(3, 3 + nv),
                dead: dead_of(w.subrange(base, base + 2 * nd), nd as nat),
                pointers: pointers_of(w.subrange(base + 2 * nd, w.len() as int)),
            },
        )
    } else {
        None
    }
}

/// The manifest that a payload holds, if it holds one.
pub open spec fn manifest_of(b: Seq<u8>) -> Option<ManifestModel> {
    if b.len() % 8 == 0 {
        manifest_of_words(words_of(b))
    } else {
        None
    }
}

/// Whether the lists of a manifest are short enough to be counted in a word.
pub open spec fn manifest_fits(m: ManifestModel) -> bool {
    &&& m.vec_segments.len() < u32::MAX
    &&& m.dead.len() < u32::MAX
}

/// Reading back a written manifest gives the same manifest.
pub proof fn lemma_manifest_round_trip(m: ManifestModel)
    requires
        manifest_fits(m),
    ensures
        manifest_of(manifest_bytes(m)) == Some(m),
{
    let w = manifest_words(m);
    lemma_words_round_trip(w);
    let nv = m.vec_segments.len() as int;
    let nd = m.dead.len() as int;
    let base = 4 + nv;
    assert(w[2] == nv);
    assert(w[3 + nv] == nd);
    assert(manifest_shape(w));
    assert(w.subrange(3, 3 + nv) =~= m.vec_segments);
    let dw = w.subrange(base, base + 2 * nd);
    assert(dw =~= dead_words(m.dead));
    assert(dead_of(dw, nd as nat) =~= m.dead) by {
        assert forall|i: int| 0 <= i < nd implies #[trigger] dead_of(dw, nd as nat)[i]
            == m.dead[i] by {
            assert(dw[2 * i] == dead_words(m.dead)[2 * i]);
            assert(dw[2 * i + 1] == dead_words(m.dead)[2 * i + 1]);
            assert((2 * i) / 2 == i && (2 * i) % 2 == 0);
            assert((2 * i + 1) / 2 == i && (2 * i + 1) % 2 == 1);
        }
    }
    assert(w.subrange(base + 2 * nd, w.len() as int) =~= pointer_words(m.pointers));
    assert(manifest_of_words(w) == Some(m));
}

fn push_ptr(w: &mut Vec<u64>, p: SegmentPtr)
    ensures
        final(w)@ == old(w)@ + seq![p.segment_id, p.offset, p.length],
{
    w.push(p.segment_id);
    w.push(p.offset);
    w.push(p.length);
    assert(final(w)@ =~= old(w)@ + seq![p.segment_id, p.offset, p.length]);
}

impl Manifest {
    /// An empty manifest for vectors of dimension `dim`.
    pub fn empty(dim: u32) -> (r: Manifest)
        ensures
            r@.generation == 0,
            r@.dim == dim,
            r@.vec_segments.len() == 0,
            r@.dead.len() == 0,
            r@.pointers == null_pointers(),
    {
        let z = SegmentPtr { segment_id: 0, offset: 0, length: 0 };
        Manifest {
            generation: 0,
            dim,
            vec_segments: Vec::new(),
            dead: Vec::new(),
            pointers: ManifestPointers {
                centroid: z,
                entrypoint: z,
                top_layer: z,
                hot_cache: z,
                quant_dict: z,
                prefetch_map: z,
            },
        }
    }

    /// A copy of the manifest.
    pub fn duplicate(&self) -> (r: Manifest)
        ensures
            r@ == self@,
    {
        Manifest {
            generation: self.generation,
            dim: self.dim,
            vec_segments: self.vec_segments.clone(),
            dead: self.dead.clone(),
            pointers: self.pointers,
        }
    }

    /// Serializes the manifest to a segment payload.
    pub fn encode(&self) -> (r: Vec<u8>)
        requires
            manifest_fits(self@),
        ensures
            r@ == manifest_bytes(self@),
    {
        let mut w: Vec<u64> = Vec::new();
        w.push(self.generation);
        w.push(self.dim as u64);
        w.push(self.vec_segments.len() as u64);
        let mut i: usize = 0;
        while i < self.vec_segments.len()
            invariant
                i <= self.vec_segments@.len(),
                w@ == seq![self.generation, self.dim as u64, self.vec_segments@.len() as u64]
                    + self.vec_segments@.subrange(0, i as int),
            decreases self.vec_segments@.len() - i,
        {
            w.push(self.vec_segments[i]);
            i = i + 1;
            assert(w@ =~= seq![self.generation, self.dim as u64, self.vec_segments@.len() as u64]
                + self.vec_segments@.subrange(0, i as int));
        }
        assert(self.vec_segments@.subrange(0, self.vec_segments@.len() as int)
            =~= self.vec_segments@);
        w.push(self.dead.len() as u64);
        let ghost prefix = w@;
        let mut j: usize = 0;
        while j < self.dead.len()
            invariant
                j <= self.dead@.len(),
                self.dead@.len() < u32::MAX,
                w@ == prefix + dead_words(self.dead@.subrange(0, j as int)),
            decreases self.dead@.len() - j,
        {
            let e = self.dead[j];
            w.push(e.segment);
            w.push(e.id);
            j = j + 1;
            proof {
                let d = self.dead@.subrange(0, j as int);
                assert forall|k: int| 0 <= k < 2 * j implies #[trigger] dead_words(d)[k]
                    == w@[prefix.len() + k] by {
                    if k < 2 * (j - 1) {
                        assert(dead_words(self.dead@.subrange(0, j - 1))[k] == w@[prefix.len()
                            + k]);
                    }
                }
                assert(w@ =~= prefix + dead_words(d));
            }
        }
        assert(self.dead@.subrange(0, self.dead@.len() as int) =~= self.dead@);
        let p = self.pointers;
        push_ptr(&mut w, p.centroid);
        push_ptr(&mut w, p.entrypoint);
        push_ptr(&mut w, p.top_layer);
        push_ptr(&mut w, p.hot_cache);
        push_ptr(&mut w, p.quant_dict);
        push_ptr(&mut w, p.prefetch_map);
        assert(w@ =~= manifest_words(self@));
        let mut out: Vec<u8> = Vec::new();
        put_words(&mut out, w.as_slice());
        assert(out@ =~= manifest_bytes(self@));
        out
    }

    /// Reads a manifest from a segment payload.
    pub fn decode(payload: &[u8]) -> (r: Option<Manifest>)
        ensures
            match manifest_of(payload@) {
                Some(m) => r matches Some(x) && x@ == m,
                None => r is None,
            },
    {
        if payload.len() % 8 != 0 {
            return None;
        }
        let w = get_words(payload);
        let n = w.len();
        if n < 4 || w[1] > u32::MAX as u64 || w[2] >= (n - 3) as u64 {
            return None;
        }
        let nv = w[2] as usize;
        let nd = w[3 + nv];
        if nd > ((n - 4 - nv) / 2) as u64 {
            return None;
        }
        let nd = nd as usize;
        if n != 4 + nv + 2 * nd + POINTER_WORDS {
            return None;
        }
        assert(manifest_shape(w@));
        let mut vec_segments: Vec<u64> = Vec::new();
        let mut i: usize = 0;
        while i < nv
            invariant
                i <= nv,
                3 + nv < n,
                n == w@.len(),
                vec_segments@ =~= w@.subrange(3, 3 + i),
            decreases nv - i,
        {
            vec_segments.push(w[3 + i]);
            i = i + 1;
        }
        let base = 4 + nv;
        let mut dead: Vec<DeadEntry> = Vec::new();
        let mut j: usize = 0;
        while j < nd
            invariant
                j <= nd,
                n == w@.len(),
                base + 2 * nd + POINTER_WORDS == n,
                dead@ =~= dead_of(w@.subrange(base as int, base + 2 * nd), nd as nat).subrange(
                    0,
                    j as int,
                ),
            decreases nd - j,
        {
            dead.push(DeadEntry { segment: w[base + 2 * j], id: w[base + 2 * j + 1] });
            j = j + 1;
        }
        let q = base + 2 * nd;
        let ptr = |k: usize| -> (r: SegmentPtr)
            requires
                q + 3 * k + 3 <= w@.len(),
            ensures
                r == (SegmentPtr {
                    segment_id: w@[q + 3 * k],
                    offset: w@[q + 3 * k + 1],
                    length: w@[q + 3 * k + 2],
                }),
            { SegmentPtr { segment_id: w[q + 3 * k], offset: w[q + 3 * k + 1], length: w[q + 3 * k + 2] } };
        let pointers = ManifestPointers {
            centroid: ptr(0),
            entrypoint: ptr(1),
            top_layer: ptr(2),
            hot_cache: ptr(3),
            quant_dict: ptr(4),
            prefetch_map: ptr(5),
        };
        let m = Manifest { generation: w[0], dim: w[1] as u32, vec_segments, dead, pointers };
        assert(pointers == pointers_of(w@.subrange(q as int, n as int)));
        assert(m@.dead =~= dead_of(w@.subrange(base as int, base + 2 * nd), nd as nat));
        assert(m@.vec_segments =~= w@.subrange(3, 3 + nv));
        assert(manifest_of_words(w@) == Some(m@));
        Some(m)
    }
}

/// All six pointers unset.
pub open spec fn null_pointers() -> ManifestPointers {
    let z = SegmentPtr { segment_id: 0, offset: 0, length: 0 };
    ManifestPointers {
        centroid: z,
        entrypoint: z,
        top_layer: z,
        hot_cache: z,
        quant_dict: z,
        prefetch_map: z,
    }
}

} // verus!
