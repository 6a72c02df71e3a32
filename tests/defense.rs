use rvf::adversarial::{
    adaptive_n_probe, centroid_distance_cv, combined_effective_n_probe,
    effective_n_probe_with_drift, is_degenerate_distribution, CV_CAP, DEGENERATE_CV_THRESHOLD,
};
use rvf::codec::checksum;
use rvf::dos::{admit_with_proof, BudgetTokenBucket, CallerBudgets, NegativeCache, ProofOfWork, QuerySignature};
use rvf::error::RvfError;
use rvf::options::ResponseQuality;
use rvf::safety_net::{selective_safety_net_scan, should_activate_safety_net, Candidate};
use rvf::vectors::{l2_distance, VectorRecord};

#[test]
fn token_bucket_limits_and_refills() {
    let mut b = BudgetTokenBucket::new(3, 3, 1000, 0);
    assert!(b.try_consume(0, 1).is_ok());
    assert!(b.try_consume(10, 1).is_ok());
    assert!(b.try_consume(20, 1).is_ok());
    assert_eq!(b.try_consume(30, 1), Err(RvfError::BudgetExceeded));
    assert_eq!(b.tokens, 0);
    assert!(b.try_consume(1000, 1).is_ok());
    assert_eq!(b.tokens, 2);
    assert_eq!(b.last_refill_ns, 1000);
    assert_eq!(b.try_consume(1500, 5), Err(RvfError::BudgetExceeded));
    assert_eq!(b.tokens, 2);
}

#[test]
fn token_bucket_refill_caps_at_capacity() {
    let mut b = BudgetTokenBucket::new(10, 4, 100, 0);
    assert!(b.try_consume(0, 10).is_ok());
    b.refill(250);
    assert_eq!(b.tokens, 8);
    assert_eq!(b.last_refill_ns, 200);
    b.refill(10_000);
    assert_eq!(b.tokens, 10);
}

#[test]
fn degenerate_stream_widens_probes() {
    let uniform = vec![100u32; 64];
    let cv_low = centroid_distance_cv(&uniform);
    assert_eq!(cv_low, 0);
    assert!(is_degenerate_distribution(cv_low));
    let spread: Vec<u32> = (1..=64).map(|x| x * 10).collect();
    let cv_normal = centroid_distance_cv(&spread);
    assert!(cv_normal >= DEGENERATE_CV_THRESHOLD);
    assert!(!is_degenerate_distribution(cv_normal));
    let widened = adaptive_n_probe(8, cv_low, 256);
    let baseline = adaptive_n_probe(8, cv_normal, 256);
    assert_eq!(widened, 32);
    assert_eq!(baseline, 8);
    assert!(widened > baseline);
    assert_eq!(adaptive_n_probe(8, cv_low, 20), 20);
}

#[test]
fn cv_exact_values() {
    assert_eq!(centroid_distance_cv(&vec![1, 3]), 500);
    assert_eq!(centroid_distance_cv(&vec![]), 0);
    assert_eq!(centroid_distance_cv(&vec![0, 0, 0]), 0);
    assert_eq!(centroid_distance_cv(&vec![2, 4, 4, 4, 5, 5, 7, 9]), 400);
    assert_eq!(centroid_distance_cv(&vec![0, 0, 0, 0, 1000]), 2000);
    let mut skew = vec![0u32; 4096];
    skew[0] = 1;
    assert!(centroid_distance_cv(&skew) <= CV_CAP);
}

#[test]
fn probe_count_with_drift_and_combined() {
    assert_eq!(effective_n_probe_with_drift(10, 500, 1, 100), 15);
    assert_eq!(effective_n_probe_with_drift(10, 0, 12, 100), 12);
    assert_eq!(effective_n_probe_with_drift(80, 1000, 1, 100), 100);
    assert_eq!(combined_effective_n_probe(10, 500, 10, 1000, 1, 100), 40);
    assert_eq!(combined_effective_n_probe(10, 500, 900, 1000, 1, 100), 15);
    assert_eq!(combined_effective_n_probe(50, 0, 10, 1000, 1, 100), 100);
}

#[test]
fn negative_cache_answers_until_expiry() {
    let mut c = NegativeCache::new(2, 100);
    assert!(!c.contains(7, 0));
    c.insert(7, 0);
    assert!(c.contains(7, 50));
    assert!(!c.contains(7, 100));
    c.insert(8, 10);
    c.insert(9, 10);
    assert_eq!(c.entries.len(), 2);
    assert!(!c.contains(7, 20));
    assert!(c.contains(8, 20) && c.contains(9, 20));
}

#[test]
fn proof_of_work_admission() {
    let pow = ProofOfWork::new(0x1234_5678, 8);
    let nonce = pow.solve(1_000_000).unwrap();
    assert!(pow.verify(nonce));
    assert_eq!(admit_with_proof(true, &pow, Some(nonce)), Ok(()));
    assert_eq!(admit_with_proof(true, &pow, None), Err(RvfError::ProofOfWorkRequired));
    assert_eq!(admit_with_proof(false, &pow, None), Ok(()));
    let bad = (0..1000u64).find(|&n| !pow.verify(n)).unwrap();
    assert_eq!(admit_with_proof(true, &pow, Some(bad)), Err(RvfError::ProofOfWorkInvalid));
    assert!(ProofOfWork::new(1, 0).verify(42));
    assert_eq!(ProofOfWork::new(1, 64).solve(100), None);
}

#[test]
fn query_signature_is_stable() {
    let a = QuerySignature::of(&[1, 2, 3], 10);
    let b = QuerySignature::of(&[1, 2, 3], 10);
    let c = QuerySignature::of(&[1, 2, 3], 11);
    let d = QuerySignature::of(&[1, 2, 4], 10);
    assert_eq!(a, b);
    assert_ne!(a, c);
    assert_ne!(a, d);
}

#[test]
fn checksum_known_value() {
    assert_eq!(checksum(b"Wikipedia"), 0x11E6_0398);
    assert_eq!(checksum(&[]), 1);
}

#[test]
fn safety_net_result_is_superset() {
    let vectors = vec![
        VectorRecord { id: 1, code: vec![0, 0] },
        VectorRecord { id: 2, code: vec![3, 4] },
        VectorRecord { id: 3, code: vec![1] },
        VectorRecord { id: 4, code: vec![1, 1] },
    ];
    let primary = vec![Candidate { id: 2, distance: 25 }, Candidate { id: 9, distance: 1 }];
    let r = selective_safety_net_scan(&[0, 0], &vectors, &primary, 10);
    assert_eq!(&r.candidates[..2], &primary[..]);
    assert_eq!(r.candidates.len(), 4);
    assert_eq!(r.candidates[2], Candidate { id: 1, distance: 0 });
    assert_eq!(r.candidates[3], Candidate { id: 4, distance: 2 });
    assert_eq!(r.scanned, 4);
    assert!(!r.budget_exhausted);
    let capped = selective_safety_net_scan(&[0, 0], &vectors, &primary, 1);
    assert_eq!(capped.scanned, 1);
    assert!(capped.budget_exhausted);
    assert_eq!(capped.candidates.len(), 3);
}

#[test]
fn safety_net_activation_policy() {
    assert!(should_activate_safety_net(ResponseQuality::BestEffort, ResponseQuality::Exhaustive, false, 1, 0));
    assert!(!should_activate_safety_net(ResponseQuality::BestEffort, ResponseQuality::BestEffort, false, 1, 0));
    assert!(should_activate_safety_net(ResponseQuality::Exhaustive, ResponseQuality::Degraded, true, 1, 0));
    assert!(should_activate_safety_net(ResponseQuality::BestEffort, ResponseQuality::BestEffort, false, 20, 10));
    assert!(!should_activate_safety_net(ResponseQuality::BestEffort, ResponseQuality::BestEffort, false, 21, 10));
}

#[test]
fn l2_distance_exact() {
    assert_eq!(l2_distance(&[0, 0, 0], &[1, 2, 255]), 1 + 4 + 65025);
}

#[test]
fn caller_budgets_are_per_caller_and_lazy() {
    let mut b = CallerBudgets::new(2, 2, 100);
    assert!(b.charge(7, 0, 1).is_ok());
    assert!(b.charge(7, 1, 1).is_ok());
    assert_eq!(b.charge(7, 2, 1), Err(RvfError::BudgetExceeded));
    assert!(b.charge(8, 2, 2).is_ok());
    assert_eq!(b.callers, vec![7, 8]);
    assert!(b.charge(7, 100, 2).is_ok());
    assert_eq!(b.charge(9, 0, 3), Err(RvfError::BudgetExceeded));
    assert_eq!(b.callers.len(), 3);
}

#[test]
fn cv_over_a_large_sample() {
    let mut d = vec![1000u32; 200_000];
    d[0] = 0;
    let cv = centroid_distance_cv(&d);
    assert!(cv < DEGENERATE_CV_THRESHOLD);
    let alternating: Vec<u32> = (0..300_000u32).map(|i| if i % 2 == 0 { 1 } else { 3 }).collect();
    assert_eq!(centroid_distance_cv(&alternating), 500);
}
