//! Degenerate-distribution detection and adaptive probe counts.
//!
//! Distances and coefficients of variation are integers: a distance is a
//! quantized `u32`, and a coefficient of variation is given in thousandths.
use vstd::arithmetic::div_mod::lemma_fundamental_div_mod;
use vstd::prelude::*;

verus! {

/// A coefficient of variation (in thousandths) below this marks a degenerate
/// query distribution.
pub const DEGENERATE_CV_THRESHOLD: u32 = 50;

/// Largest coefficient of variation reported, in thousandths.
pub const CV_CAP: u32 = 65535;

/// Most distances that one statistic is computed over.
pub const MAX_CV_SAMPLES: usize = 0x10_0000;

/// Factor by which a degenerate distribution widens the probe count.
pub const DEGENERATE_PROBE_FACTOR: u32 = 4;

/// Sum of the distances.
pub open spec fn dist_sum(d: Seq<u32>) -> int
    decreases d.len(),
{
    if d.len() == 0 {
        0
    } else {
        dist_sum(d.drop_last()) + d.last()
    }
}

/// Sum of the squared distances.
pub open spec fn dist_sum_sq(d: Seq<u32>) -> int
    decreases d.len(),
{
    if d.len() == 0 {
        0
    } else {
        dist_sum_sq(d.drop_last()) + d.last() * d.last()
    }
}

/// `n` squared times the variance: `n * sum(x^2) - sum(x)^2`, never below zero.
pub open spec fn dispersion(d: Seq<u32>) -> int {
    let v = d.len() * dist_sum_sq(d) - dist_sum(d) * dist_sum(d);
    if v < 0 {
        0
    } else {
        v
    }
}

/// Whether `r` is the coefficient of variation of `d` in thousandths, rounded
/// down and capped at `CV_CAP`: the largest `r` with
/// `(r / 1000)^2 <= variance / mean^2`. An empty or all-zero sample has 0.
pub open spec fn is_cv_of(d: Seq<u32>, r: u32) -> bool {
    let s2 = dist_sum(d) * dist_sum(d);
    let x = 1_000_000 * dispersion(d);
    if d.len() == 0 || dist_sum(d) == 0 {
        r == 0
    } else {
        &&& r <= CV_CAP
        &&& r * r * s2 <= x
        &&& (r == CV_CAP || (r + 1) * (r + 1) * s2 > x)
    }
}

/// The coefficient of variation, in thousandths, of distances from a query to
/// the centroids.
pub fn centroid_distance_cv(distances: &Vec<u32>) -> (r: u32)
    requires
        distances@.len() <= MAX_CV_SAMPLES,
    ensures
        is_cv_of(distances@, r),
{
    let n = distances.len();
    let mut sum: u64 = 0;
    let mut sum_sq: u128 = 0;
    let mut i: usize = 0;
    while i < n
        invariant
            n == distances@.len(),
            n <= MAX_CV_SAMPLES,
            i <= n,
            sum == dist_sum(distances@.subrange(0, i as int)),
            sum_sq == dist_sum_sq(distances@.subrange(0, i as int)),
            sum <= i * 0xFFFF_FFFF,
            sum_sq <= i * 0xFFFF_FFFE_0000_0001,
        decreases n - i,
    {
        let x = distances[i];
        assert(distances@.subrange(0, i + 1).drop_last() =~= distances@.subrange(0, i as int));
        assert((x as int) * (x as int) <= 0xFFFF_FFFE_0000_0001) by (nonlinear_arith)
            requires
                x <= 0xFFFF_FFFF,
        ;
        sum = sum + x as u64;
        sum_sq = sum_sq + (x as u128) * (x as u128);
        i = i + 1;
    }
    assert(distances@.subrange(0, n as int) =~= distances@);
    if n == 0 || sum == 0 {
        return 0;
    }
    let s = sum as u128;
    assert(s * s <= 0x100_0000_0000_0000_0000_0000_0000) by (nonlinear_arith)
        requires
            s <= 0x10_0000 * 0xFFFF_FFFF,
    ;
    let s2 = s * s;
    assert(n * sum_sq <= 0x10_0000 * 0x10_0000 * 0xFFFF_FFFE_0000_0001) by (nonlinear_arith)
        requires
            n <= 0x10_0000,
            sum_sq <= n * 0xFFFF_FFFE_0000_0001,
    ;
    let ns = (n as u128) * sum_sq;
    let v: u128 = if ns >= s2 {
        ns - s2
    } else {
        0
    };
    let x = 1_000_000 * v;
    assert(s2 > 0) by (nonlinear_arith)
        requires
            s > 0,
            s2 == s * s,
    ;
    let q = x / s2;
    if (CV_CAP as u128) * (CV_CAP as u128) <= q {
        proof {
            lemma_mul_le_div((CV_CAP as int) * (CV_CAP as int), s2 as int, x as int);
        }
        return CV_CAP;
    }
    let mut lo: u32 = 0;
    let mut hi: u32 = CV_CAP;
    while hi - lo > 1
        invariant
            lo < hi <= CV_CAP,
            (lo as int) * (lo as int) <= q,
            (hi as int) * (hi as int) > q,
        decreases hi - lo,
    {
        let mid = lo + (hi - lo) / 2;
        assert((mid as int) * (mid as int) <= 0xFFFF * 0xFFFF) by (nonlinear_arith)
            requires
                mid <= 0xFFFF,
        ;
        if (mid as u128) * (mid as u128) <= q {
            lo = mid;
        } else {
            hi = mid;
        }
    }
    proof {
        lemma_mul_le_div((lo as int) * (lo as int), s2 as int, x as int);
        lemma_mul_le_div((lo as int + 1) * (lo as int + 1), s2 as int, x as int);
    }
    lo
}

/// For a positive divisor, `a * d <= x` exactly when `a` is at most `x / d`.
proof fn lemma_mul_le_div(a: int, d: int, x: int)
    requires
        d > 0,
        x >= 0,
        a >= 0,
    ensures
        (a * d <= x) == (a <= x / d),
{
    lemma_fundamental_div_mod(x, d);
    let q = x / d;
    let r = x % d;
    assert((a * d <= x) == (a <= q)) by (nonlinear_arith)
        requires
            x == d * q + r,
            0 <= r < d,
            d > 0,
    ;
}

/// Whether a coefficient of variation marks a degenerate distribution.
pub fn is_degenerate_distribution(cv: u32) -> (r: bool)
    ensures
        r == (cv < DEGENERATE_CV_THRESHOLD),
{
    cv < DEGENERATE_CV_THRESHOLD
}

/// The smaller of two integers.
pub open spec fn min_int(a: int, b: int) -> int {
    if a < b {
        a
    } else {
        b
    }
}

/// The larger of two integers.
pub open spec fn max_int(a: int, b: int) -> int {
    if a < b {
        b
    } else {
        a
    }
}

/// The probe count for a query: under a degenerate distribution the base
/// count is widened by `DEGENERATE_PROBE_FACTOR`, up to the number of
/// centroids (and never below the base count).
pub open spec fn adaptive_probe(base: u32, cv: u32, total_centroids: u32) -> int {
    if cv < DEGENERATE_CV_THRESHOLD {
        min_int(DEGENERATE_PROBE_FACTOR * base, max_int(total_centroids as int, base as int))
    } else {
        base as int
    }
}

/// The probe count adapted to the query distribution's coefficient of variation.
pub fn adaptive_n_probe(base_n_probe: u32, cv: u32, total_centroids: u32) -> (r: u32)
    ensures
        r == adaptive_probe(base_n_probe, cv, total_centroids),
{
    if is_degenerate_distribution(cv) {
        assert(DEGENERATE_PROBE_FACTOR == 4);
        let widened: u64 = (base_n_probe as u64) * 4;
        let ceiling = if total_centroids > base_n_probe {
            total_centroids
        } else {
            base_n_probe
        };
        if widened < ceiling as u64 {
            widened as u32
        } else {
            ceiling
        }
    } else {
        base_n_probe
    }
}

/// A degenerate query stream gets strictly more probes than a normal one of
/// the same shape, whenever there is room to widen.
pub proof fn lemma_degenerate_widens(base: u32, low_cv: u32, normal_cv: u32, total_centroids: u32)
    requires
        low_cv < DEGENERATE_CV_THRESHOLD,
        normal_cv >= DEGENERATE_CV_THRESHOLD,
        1 <= base < total_centroids,
    ensures
        adaptive_probe(base, low_cv, total_centroids) > adaptive_probe(
            base,
            normal_cv,
            total_centroids,
        ),
{
}

/// `x` clamped to `[lo, hi]`.
pub open spec fn clamp(x: int, lo: int, hi: int) -> int {
    if x < lo {
        lo
    } else if x > hi {
        hi
    } else {
        x
    }
}

/// The base probe count grown by the drift (in thousandths), clamped to `[min, max]`.
pub open spec fn drift_probe(base: u32, drift: u32, min: u32, max: u32) -> int {
    clamp(base + (base * drift) / 1000, min as int, max as int)
}

/// The probe count after accounting for observed drift.
pub fn effective_n_probe_with_drift(base_n_probe: u32, drift: u32, min: u32, max: u32) -> (r: u32)
    requires
        min <= max,
    ensures
        r == drift_probe(base_n_probe, drift, min, max),
        min <= r <= max,
{
    assert((base_n_probe as int) * (drift as int) <= 0xFFFF_FFFF * 0xFFFF_FFFF)
        by (nonlinear_arith)
        requires
            base_n_probe <= 0xFFFF_FFFF,
            drift <= 0xFFFF_FFFF,
    ;
    let grown: u64 = base_n_probe as u64 + (base_n_probe as u64) * (drift as u64) / 1000;
    if grown < min as u64 {
        min
    } else if grown > max as u64 {
        max
    } else {
        grown as u32
    }
}

/// The larger of the drift-driven and the degeneracy-driven probe counts,
/// clamped to `[min, max]`.
pub open spec fn combined_probe(
    base: u32,
    drift: u32,
    cv: u32,
    total_centroids: u32,
    min: u32,
    max: u32,
) -> int {
    clamp(
        max_int(drift_probe(base, drift, min, max), adaptive_probe(base, cv, total_centroids)),
        min as int,
        max as int,
    )
}

/// The probe count handed to the index, from drift and degeneracy together.
pub fn combined_effective_n_probe(
    base_n_probe: u32,
    drift: u32,
    cv: u32,
    total_centroids: u32,
    min: u32,
    max: u32,
) -> (r: u32)
    requires
        min <= max,
    ensures
        r == combined_probe(base_n_probe, drift, cv, total_centroids, min, max),
        min <= r <= max,
{
    let a = effective_n_probe_with_drift(base_n_probe, drift, min, max);
    let b = adaptive_n_probe(base_n_probe, cv, total_centroids);
    let m = if a > b {
        a
    } else {
        b
    };
    if m > max {
        max
    } else {
        m
    }
}

} // verus!
