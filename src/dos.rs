//! Admission control against denial of service and probing: a per-caller
//! token bucket, a negative-result cache, proof-of-work challenges and
//! query signatures.
use crate::error::RvfError;
use vstd::prelude::*;

verus! {

// ---------------------------------------------------------------------------
// Token bucket
// ---------------------------------------------------------------------------

/// A token bucket that limits a caller's query rate: `refill_amount` tokens
/// come back every `interval_ns`, up to `capacity`.
#[derive(Clone, Copy, Debug, PartialEq, Eq, Structural)]
pub struct BudgetTokenBucket {
    pub capacity: u64,
    pub tokens: u64,
    pub refill_amount: u64,
    pub interval_ns: u64,
    pub last_refill_ns: u64,
}

/// The number of whole refill intervals between the last refill and `now`.
pub open spec fn intervals_elapsed(b: BudgetTokenBucket, now: u64) -> int {
    if now <= b.last_refill_ns {
        0
    } else {
        (now - b.last_refill_ns) as int / (b.interval_ns as int)
    }
}

/// The tokens in the bucket at `now`, after the intervals that elapsed refilled it.
pub open spec fn refilled_tokens(b: BudgetTokenBucket, now: u64) -> int {
    let t = b.tokens + intervals_elapsed(b, now) * b.refill_amount;
    if t > b.capacity {
        b.capacity as int
    } else {
        t
    }
}

impl BudgetTokenBucket {
    /// The bucket's invariant: at most `capacity` tokens, and a positive interval.
    pub open spec fn wf(&self) -> bool {
        self.tokens <= self.capacity && self.interval_ns > 0
    }

    /// A full bucket whose last refill is at `now`.
    pub fn new(capacity: u64, refill_amount: u64, interval_ns: u64, now: u64) -> (r: Self)
        requires
            interval_ns > 0,
        ensures
            r.wf(),
            r == (BudgetTokenBucket {
                capacity,
                tokens: capacity,
                refill_amount,
                interval_ns,
                last_refill_ns: now,
            }),
    {
        BudgetTokenBucket {
            capacity,
            tokens: capacity,
            refill_amount,
            interval_ns,
            last_refill_ns: now,
        }
    }

    /// Adds the tokens of every whole interval elapsed since the last refill.
    pub fn refill(&mut self, now: u64)
        requires
            old(self).wf(),
        ensures
            final(self).wf(),
            final(self).tokens == refilled_tokens(*old(self), now),
            final(self).capacity == old(self).capacity,
            final(self).refill_amount == old(self).refill_amount,
            final(self).interval_ns == old(self).interval_ns,
            final(self).last_refill_ns == old(self).last_refill_ns + intervals_elapsed(
                *old(self),
                now,
            ) * old(self).interval_ns,
    {
        if now <= self.last_refill_ns {
            return;
        }
        let elapsed = now - self.last_refill_ns;
        let k = elapsed / self.interval_ns;
        assert(k * self.interval_ns <= elapsed) by (nonlinear_arith)
            requires
                k == elapsed / self.interval_ns,
                self.interval_ns > 0,
        ;
        assert((k as int) * (self.refill_amount as int) <= 0xFFFF_FFFF_FFFF_FFFF
            * 0xFFFF_FFFF_FFFF_FFFF) by (nonlinear_arith)
            requires
                k <= 0xFFFF_FFFF_FFFF_FFFF,
                self.refill_amount <= 0xFFFF_FFFF_FFFF_FFFF,
        ;
        let add: u128 = (k as u128) * (self.refill_amount as u128);
        let room = self.capacity - self.tokens;
        if add >= room as u128 {
            self.tokens = self.capacity;
        } else {
            self.tokens = self.tokens + add as u64;
        }
        self.last_refill_ns = self.last_refill_ns + k * self.interval_ns;
    }

    /// Spends `cost` tokens if the refilled bucket holds them; otherwise the
    /// caller's budget is exceeded and no token is spent.
    pub fn try_consume(&mut self, now: u64, cost: u64) -> (r: Result<(), RvfError>)
        requires
            old(self).wf(),
        ensures
            final(self).wf(),
            refilled_tokens(*old(self), now) >= cost ==> r is Ok && final(self).tokens
                == refilled_tokens(*old(self), now) - cost,
            refilled_tokens(*old(self), now) < cost ==> r == Err::<(), RvfError>(
                RvfError::BudgetExceeded,
            ) && final(self).tokens == refilled_tokens(*old(self), now),
            final(self).capacity == old(self).capacity,
            final(self).refill_amount == old(self).refill_amount,
            final(self).interval_ns == old(self).interval_ns,
    {
        self.refill(now);
        if self.tokens >= cost {
            self.tokens = self.tokens - cost;
            Ok(())
        } else {
            Err(RvfError::BudgetExceeded)
        }
    }
}

/// Once a refill interval has elapsed, a request that costs no more than one
/// interval's refill and the capacity is within budget again, however empty
/// the bucket was.
pub proof fn lemma_budget_recovers(b: BudgetTokenBucket, now: u64, cost: u64)
    requires
        b.wf(),
        now >= b.last_refill_ns + b.interval_ns,
        cost <= b.refill_amount,
        cost <= b.capacity,
    ensures
        refilled_tokens(b, now) >= cost,
{
    let e = (now - b.last_refill_ns) as int;
    let i = b.interval_ns as int;
    assert(e / i >= 1) by (nonlinear_arith)
        requires
            e >= i,
            i > 0,
    ;
    let k = e / i;
    assert(k * b.refill_amount >= b.refill_amount) by (nonlinear_arith)
        requires
            k >= 1,
    ;
}


/// The token buckets of the callers seen so far, each made full on the
/// caller's first request.
#[derive(Clone, Debug)]
pub struct CallerBudgets {
    pub callers: Vec<u64>,
    pub buckets: Vec<BudgetTokenBucket>,
    pub capacity: u64,
    pub refill_amount: u64,
    pub interval_ns: u64,
}

/// The position of `caller` among `callers`, if it is there.
pub open spec fn caller_index(callers: Seq<u64>, caller: u64) -> Option<int> {
    if exists|i: int| 0 <= i < callers.len() && callers[i] == caller {
        Some(choose|i: int| 0 <= i < callers.len() && callers[i] == caller)
    } else {
        None
    }
}

impl CallerBudgets {
    /// The invariant: one well-formed bucket per distinct caller.
    pub open spec fn wf(&self) -> bool {
        &&& self.callers@.len() == self.buckets@.len()
        &&& self.interval_ns > 0
        &&& forall|i: int| 0 <= i < self.buckets@.len() ==> (#[trigger] self.buckets@[i]).wf()
        &&& forall|i: int, j: int|
            0 <= i < j < self.callers@.len() ==> self.callers@[i] != self.callers@[j]
    }

    /// The bucket that a caller's next request draws from: its own, or a
    /// full one made at `now` for a caller not seen before.
    pub open spec fn bucket_for(&self, caller: u64, now: u64) -> BudgetTokenBucket {
        match caller_index(self.callers@, caller) {
            Some(i) => self.buckets@[i],
            None => BudgetTokenBucket {
                capacity: self.capacity,
                tokens: self.capacity,
                refill_amount: self.refill_amount,
                interval_ns: self.interval_ns,
                last_refill_ns: now,
            },
        }
    }

    /// No caller seen yet; every bucket will hold `capacity` tokens and get
    /// `refill_amount` back every `interval_ns`.
    pub fn new(capacity: u64, refill_amount: u64, interval_ns: u64) -> (r: Self)
        requires
            interval_ns > 0,
        ensures
            r.wf(),
            r.callers@.len() == 0,
            r.capacity == capacity,
            r.refill_amount == refill_amount,
            r.interval_ns == interval_ns,
    {
        CallerBudgets { callers: Vec::new(), buckets: Vec::new(), capacity, refill_amount, interval_ns }
    }

    fn find(&self, caller: u64) -> (r: Option<usize>)
        requires
            self.wf(),
        ensures
            r matches Some(i) ==> i < self.callers@.len() && self.callers@[i as int] == caller,
            r is None ==> forall|j: int| 0 <= j < self.callers@.len() ==> self.callers@[j] != caller,
    {
        let mut i: usize = 0;
        while i < self.callers.len()
            invariant
                self.wf(),
                i <= self.callers@.len(),
                forall|j: int| 0 <= j < i ==> self.callers@[j] != caller,
            decreases self.callers@.len() - i,
        {
            if self.callers[i] == caller {
                return Some(i);
            }
            i = i + 1;
        }
        None
    }

    /// Charges a request of `cost` tokens from `caller` at `now`: it is within
    /// budget exactly when the caller's refilled bucket holds `cost` tokens.
    pub fn charge(&mut self, caller: u64, now: u64, cost: u64) -> (r: Result<(), RvfError>)
        requires
            old(self).wf(),
        ensures
            final(self).wf(),
            refilled_tokens(old(self).bucket_for(caller, now), now) >= cost ==> r is Ok,
            refilled_tokens(old(self).bucket_for(caller, now), now) < cost ==> r == Err::<(), RvfError>(
                RvfError::BudgetExceeded,
            ),
            final(self).bucket_for(caller, now).tokens == if refilled_tokens(old(self).bucket_for(caller, now), now) >= cost {
                refilled_tokens(old(self).bucket_for(caller, now), now) - cost
            } else {
                refilled_tokens(old(self).bucket_for(caller, now), now)
            },
            final(self).capacity == old(self).capacity,
            final(self).refill_amount == old(self).refill_amount,
            final(self).interval_ns == old(self).interval_ns,
    {
        match self.find(caller) {
            Some(i) => {
                let mut b = self.buckets[i];
                proof {
                    assert(old(self).callers@[i as int] == caller);
                    let k = choose|k: int| 0 <= k < old(self).callers@.len() && old(self).callers@[k] == caller;
                    if k < i {
                        assert(old(self).callers@[k] != old(self).callers@[i as int]);
                    } else if k > i {
                        assert(old(self).callers@[i as int] != old(self).callers@[k]);
                    }
                    assert(caller_index(old(self).callers@, caller) == Some(i as int));
                }
                assert(b == old(self).bucket_for(caller, now));
                let r = b.try_consume(now, cost);
                self.buckets.set(i, b);
                proof {
                    assert forall|j: int| 0 <= j < self.buckets@.len() implies (#[trigger] self.buckets@[j]).wf() by {
                        if j != i {
                            assert(self.buckets@[j] == old(self).buckets@[j]);
                        }
                    }
                    assert(self.callers@ == old(self).callers@);
                    assert(caller_index(self.callers@, caller) == Some(i as int));
                }
                r
            },
            None => {
                let mut b = BudgetTokenBucket::new(self.capacity, self.refill_amount, self.interval_ns, now);
                assert(b == old(self).bucket_for(caller, now));
                let r = b.try_consume(now, cost);
                self.callers.push(caller);
                self.buckets.push(b);
                proof {
                    let n = old(self).callers@.len() as int;
                    assert(self.callers@[n] == caller);
                    assert forall|j: int| 0 <= j < self.buckets@.len() implies (#[trigger] self.buckets@[j]).wf() by {
                        if j < n {
                            assert(self.buckets@[j] == old(self).buckets@[j]);
                        }
                    }
                    assert forall|x: int, y: int| 0 <= x < y < self.callers@.len() implies self.callers@[x] != self.callers@[y] by {
                        if y == n {
                            assert(self.callers@[x] == old(self).callers@[x]);
                        } else {
                            assert(self.callers@[x] == old(self).callers@[x]);
                            assert(self.callers@[y] == old(self).callers@[y]);
                        }
                    }
                    let k = choose|k: int| 0 <= k < self.callers@.len() && self.callers@[k] == caller;
                    if k < n {
                        assert(old(self).callers@[k] == caller);
                    }
                    assert(caller_index(self.callers@, caller) == Some(n));
                }
                r
            },
        }
    }
}

// ---------------------------------------------------------------------------
// Negative-result cache
// ---------------------------------------------------------------------------

/// A cached "no result" outcome for a query signature, valid until `expires_ns`.
#[derive(Clone, Copy, Debug, PartialEq, Eq, Structural)]
pub struct NegativeEntry {
    pub signature: u64,
    pub expires_ns: u64,
}

/// A bounded cache of queries that found nothing, so repeated probing for
/// absent data is answered without a search. The oldest entry leaves first.
#[derive(Clone, Debug)]
pub struct NegativeCache {
    pub entries: Vec<NegativeEntry>,
    pub capacity: usize,
    pub ttl_ns: u64,
}

/// Whether `sig` has an entry that is still valid at `now`.
pub open spec fn is_cached(entries: Seq<NegativeEntry>, sig: u64, now: u64) -> bool {
    exists|i: int| 0 <= i < entries.len() && #[trigger] entries[i].signature == sig
        && entries[i].expires_ns > now
}

/// The expiry of an entry made at `now`: `now + ttl`, saturating.
pub open spec fn expiry(now: u64, ttl: u64) -> u64 {
    if now + ttl > u64::MAX {
        u64::MAX
    } else {
        (now + ttl) as u64
    }
}

impl NegativeCache {
    /// The cache's invariant: a positive capacity that the entries respect.
    pub open spec fn wf(&self) -> bool {
        self.capacity > 0 && self.entries@.len() <= self.capacity
    }

    /// An empty cache.
    pub fn new(capacity: usize, ttl_ns: u64) -> (r: Self)
        requires
            capacity > 0,
        ensures
            r.wf(),
            r.entries@.len() == 0,
            r.capacity == capacity,
            r.ttl_ns == ttl_ns,
    {
        NegativeCache { entries: Vec::new(), capacity, ttl_ns }
    }

    /// Whether `sig` is cached as a "no result" outcome at `now`.
    pub fn contains(&self, sig: u64, now: u64) -> (r: bool)
        ensures
            r == is_cached(self.entries@, sig, now),
    {
        let mut i: usize = 0;
        while i < self.entries.len()
            invariant
                i <= self.entries@.len(),
                forall|j: int|
                    0 <= j < i ==> !(#[trigger] self.entries@[j].signature == sig
                        && self.entries@[j].expires_ns > now),
            decreases self.entries@.len() - i,
        {
            let e = self.entries[i];
            if e.signature == sig && e.expires_ns > now {
                return true;
            }
            i = i + 1;
        }
        false
    }

    /// Caches a "no result" outcome for `sig` at `now`, evicting the oldest
    /// entry when the cache is full.
    pub fn insert(&mut self, sig: u64, now: u64)
        requires
            old(self).wf(),
        ensures
            final(self).wf(),
            final(self).capacity == old(self).capacity,
            final(self).ttl_ns == old(self).ttl_ns,
            final(self).entries@ == (if old(self).entries@.len() == old(self).capacity {
                old(self).entries@.drop_first()
            } else {
                old(self).entries@
            }).push(NegativeEntry { signature: sig, expires_ns: expiry(now, old(self).ttl_ns) }),
    {
        if self.entries.len() == self.capacity {
            self.entries.remove(0);
            assert(self.entries@ =~= old(self).entries@.drop_first());
        }
        let expires_ns = if now > u64::MAX - self.ttl_ns {
            u64::MAX
        } else {
            now + self.ttl_ns
        };
        self.entries.push(NegativeEntry { signature: sig, expires_ns });
    }
}

// ---------------------------------------------------------------------------
// Proof of work
// ---------------------------------------------------------------------------

/// Two to the power `n`.
pub open spec fn pow2(n: nat) -> nat
    decreases n,
{
    if n == 0 {
        1
    } else {
        2 * pow2((n - 1) as nat)
    }
}

/// The 64-bit mixing function of the proof-of-work hash.
pub open spec fn mix64(x: u64) -> u64 {
    let a = (x ^ (x >> 30u64)).wrapping_mul(0xbf58_476d_1ce4_e5b9u64);
    let b = (a ^ (a >> 27u64)).wrapping_mul(0x94d0_49bb_1331_11ebu64);
    b ^ (b >> 31u64)
}

/// The hash of a challenge and a nonce.
pub open spec fn pow_hash(challenge: u64, nonce: u64) -> u64 {
    mix64(challenge ^ mix64(nonce))
}

/// Whether a hash has at least `difficulty` leading zero bits.
pub open spec fn meets_difficulty(h: u64, difficulty: u32) -> bool {
    difficulty == 0 || (difficulty <= 64 && (h as nat) < pow2((64 - difficulty) as nat))
}

fn mix(x: u64) -> (r: u64)
    ensures
        r == mix64(x),
{
    let a = (x ^ (x >> 30u64)).wrapping_mul(0xbf58_476d_1ce4_e5b9u64);
    let b = (a ^ (a >> 27u64)).wrapping_mul(0x94d0_49bb_1331_11ebu64);
    b ^ (b >> 31u64)
}

/// A proof-of-work challenge: a nonce whose hash with the challenge has
/// `difficulty` leading zero bits.
#[derive(Clone, Copy, Debug, PartialEq, Eq, Structural)]
pub struct ProofOfWork {
    pub challenge: u64,
    pub difficulty: u32,
}

impl ProofOfWork {
    /// A challenge of the given difficulty, at most 64 bits.
    pub fn new(challenge: u64, difficulty: u32) -> (r: Self)
        requires
            difficulty <= 64,
        ensures
            r.challenge == challenge,
            r.difficulty == difficulty,
    {
        ProofOfWork { challenge, difficulty }
    }

    /// Checks a nonce: one hash and one comparison.
    pub fn verify(&self, nonce: u64) -> (r: bool)
        requires
            self.difficulty <= 64,
        ensures
            r == meets_difficulty(pow_hash(self.challenge, nonce), self.difficulty),
    {
        let h = mix(self.challenge ^ mix(nonce));
        if self.difficulty == 0 {
            return true;
        }
        let bits = 64 - self.difficulty;
        let mut bound: u64 = 1;
        let mut i: u32 = 0;
        proof {
            lemma_pow2_mono(0, 63);
            reveal_with_fuel(pow2, 64);
        }
        while i < bits
            invariant
                i <= bits,
                bits <= 63,
                bound as nat == pow2(i as nat),
                pow2(i as nat) <= pow2(63),
            decreases bits - i,
        {
            proof {
                lemma_pow2_mono((i + 1) as nat, 63);
                reveal_with_fuel(pow2, 64);
            }
            bound = bound * 2;
            i = i + 1;
        }
        h < bound
    }

    /// Searches the nonces `0 .. max_attempts` for one that meets the difficulty.
    pub fn solve(&self, max_attempts: u64) -> (r: Option<u64>)
        requires
            self.difficulty <= 64,
        ensures
            r matches Some(n) ==> meets_difficulty(pow_hash(self.challenge, n), self.difficulty),
            r is None ==> forall|n: u64|
                n < max_attempts ==> !meets_difficulty(
                    #[trigger] pow_hash(self.challenge, n),
                    self.difficulty,
                ),
    {
        let mut n: u64 = 0;
        while n < max_attempts
            invariant
                self.difficulty <= 64,
                forall|m: u64|
                    m < n ==> !meets_difficulty(
                        #[trigger] pow_hash(self.challenge, m),
                        self.difficulty,
                    ),
            decreases max_attempts - n,
        {
            if self.verify(n) {
                return Some(n);
            }
            n = n + 1;
        }
        None
    }
}

proof fn lemma_pow2_mono(a: nat, b: nat)
    requires
        a <= b,
    ensures
        pow2(a) <= pow2(b),
    decreases b,
{
    if a < b {
        lemma_pow2_mono(a, (b - 1) as nat);
    }
}

/// Admits an expensive query: when a proof of work is required, a nonce must
/// be presented and must meet the challenge's difficulty.
pub fn admit_with_proof(required: bool, pow: &ProofOfWork, nonce: Option<u64>) -> (r: Result<
    (),
    RvfError,
>)
    requires
        pow.difficulty <= 64,
    ensures
        !required ==> r is Ok,
        required && nonce is None ==> r == Err::<(), RvfError>(RvfError::ProofOfWorkRequired),
        required && nonce is Some && meets_difficulty(
            pow_hash(pow.challenge, nonce->Some_0),
            pow.difficulty,
        ) ==> r is Ok,
        required && nonce is Some && !meets_difficulty(
            pow_hash(pow.challenge, nonce->Some_0),
            pow.difficulty,
        ) ==> r == Err::<(), RvfError>(RvfError::ProofOfWorkInvalid),
{
    if !required {
        return Ok(());
    }
    match nonce {
        None => Err(RvfError::ProofOfWorkRequired),
        Some(n) => if pow.verify(n) {
            Ok(())
        } else {
            Err(RvfError::ProofOfWorkInvalid)
        },
    }
}

// ---------------------------------------------------------------------------
// Query signatures
// ---------------------------------------------------------------------------

/// FNV-1a offset basis.
pub const FNV_OFFSET: u64 = 0xcbf2_9ce4_8422_2325;

/// FNV-1a prime.
pub const FNV_PRIME: u64 = 0x100_0000_01b3;

/// FNV-1a hash of bytes.
pub open spec fn fnv1a(s: Seq<u8>) -> u64
    decreases s.len(),
{
    if s.len() == 0 {
        FNV_OFFSET
    } else {
        (fnv1a(s.drop_last()) ^ (s.last() as u64)).wrapping_mul(FNV_PRIME)
    }
}

/// The signature of a query's shape: its quantized vector and its `k`.
pub open spec fn signature_of(code: Seq<u8>, k: u32) -> u64 {
    (fnv1a(code) ^ (k as u64)).wrapping_mul(FNV_PRIME)
}

/// A signature derived from the shape of a query.
#[derive(Clone, Copy, Debug, PartialEq, Eq, Hash, Structural)]
pub struct QuerySignature {
    pub hash: u64,
}

impl QuerySignature {
    /// The signature of a query for the `k` nearest neighbours of `code`.
    pub fn of(code: &[u8], k: u32) -> (r: Self)
        ensures
            r.hash == signature_of(code@, k),
    {
        let mut h: u64 = FNV_OFFSET;
        let mut i: usize = 0;
        while i < code.len()
            invariant
                i <= code@.len(),
                h == fnv1a(code@.subrange(0, i as int)),
            decreases code@.len() - i,
        {
            assert(code@.subrange(0, i + 1).drop_last() =~= code@.subrange(0, i as int));
            h = (h ^ (code[i] as u64)).wrapping_mul(FNV_PRIME);
            i = i + 1;
        }
        assert(code@.subrange(0, code@.len() as int) =~= code@);
        QuerySignature { hash: (h ^ (k as u64)).wrapping_mul(FNV_PRIME) }
    }
}

} // verus!
