//! Little-endian integer encoding and the payload checksum used by the
//! on-disk format.
use vstd::arithmetic::div_mod::{lemma_div_denominator, lemma_fundamental_div_mod};
use vstd::prelude::*;

verus! {

/// 256 to the power `n`.
pub open spec fn pow256(n: nat) -> nat
    decreases n,
{
    if n == 0 {
        1
    } else {
        256 * pow256((n - 1) as nat)
    }
}

/// The unsigned integer whose little-endian bytes are `s`.
pub open spec fn le_value(s: Seq<u8>) -> nat
    decreases s.len(),
{
    if s.len() == 0 {
        0
    } else {
        s[0] as nat + 256 * le_value(s.drop_first())
    }
}

/// The `n` low-order little-endian bytes of `x`.
pub open spec fn le_bytes(x: nat, n: nat) -> Seq<u8>
    decreases n,
{
    if n == 0 {
        Seq::empty()
    } else {
        seq![(x % 256) as u8] + le_bytes(x / 256, (n - 1) as nat)
    }
}

pub proof fn lemma_pow256_pos(n: nat)
    ensures
        pow256(n) >= 1,
    decreases n,
{
    if n > 0 {
        lemma_pow256_pos((n - 1) as nat);
    }
}

pub proof fn lemma_pow256_mono(a: nat, b: nat)
    requires
        a <= b,
    ensures
        pow256(a) <= pow256(b),
    decreases b,
{
    if a < b {
        lemma_pow256_mono(a, (b - 1) as nat);
        lemma_pow256_pos((b - 1) as nat);
    }
}

pub proof fn lemma_pow256_values()
    ensures
        pow256(1) == 0x100,
        pow256(2) == 0x1_0000,
        pow256(4) == 0x1_0000_0000,
        pow256(8) == 0x1_0000_0000_0000_0000,
{
    reveal_with_fuel(pow256, 9);
}

pub proof fn lemma_le_bytes_len(x: nat, n: nat)
    ensures
        le_bytes(x, n).len() == n,
    decreases n,
{
    if n > 0 {
        lemma_le_bytes_len(x / 256, (n - 1) as nat);
    }
}

pub proof fn lemma_le_value_bound(s: Seq<u8>)
    ensures
        le_value(s) < pow256(s.len()),
    decreases s.len(),
{
    if s.len() > 0 {
        lemma_le_value_bound(s.drop_first());
    }
}

/// Decoding the bytes of a value that fits gives the value back.
pub proof fn lemma_le_value_of_bytes(x: nat, n: nat)
    requires
        x < pow256(n),
    ensures
        le_value(le_bytes(x, n)) == x,
    decreases n,
{
    if n > 0 {
        let b = le_bytes(x, n);
        lemma_le_bytes_len(x, n);
        assert(b.drop_first() =~= le_bytes(x / 256, (n - 1) as nat));
        lemma_le_value_of_bytes(x / 256, (n - 1) as nat);
        lemma_fundamental_div_mod(x as int, 256);
    }
}

/// Encoding the value of some bytes gives the same bytes back.
pub proof fn lemma_bytes_of_le_value(s: Seq<u8>)
    ensures
        le_bytes(le_value(s), s.len()) =~= s,
    decreases s.len(),
{
    if s.len() > 0 {
        let rest = s.drop_first();
        lemma_bytes_of_le_value(rest);
        let v = le_value(s);
        assert(v % 256 == s[0] as nat && v / 256 == le_value(rest)) by {
            lemma_fundamental_div_mod(v as int, 256);
        }
        lemma_le_bytes_len(v, s.len());
        assert(le_bytes(v, s.len()) =~= seq![s[0]] + rest);
    }
}

proof fn lemma_le_bytes_push(x: nat, i: nat)
    ensures
        le_bytes(x, i + 1) =~= le_bytes(x, i).push(((x / pow256(i)) % 256) as u8),
    decreases i,
{
    if i > 0 {
        lemma_le_bytes_push(x / 256, (i - 1) as nat);
        lemma_pow256_pos((i - 1) as nat);
        lemma_div_denominator(x as int, 256, pow256((i - 1) as nat) as int);
        assert(le_bytes(x, i + 1) == seq![(x % 256) as u8] + le_bytes(x / 256, i));
        assert(le_bytes(x, i) == seq![(x % 256) as u8] + le_bytes(x / 256, (i - 1) as nat));
        let h = seq![(x % 256) as u8];
        let t = le_bytes(x / 256, (i - 1) as nat);
        let c = (((x / 256) / pow256((i - 1) as nat)) % 256) as u8;
        assert((h + t.push(c)) =~= (h + t).push(c));
        assert(pow256(i) == 256 * pow256((i - 1) as nat));
        assert(x / pow256(i) == (x / 256) / pow256((i - 1) as nat));
    } else {
        assert(le_bytes(x, 1) == seq![(x % 256) as u8] + le_bytes(x / 256, 0));
        assert(pow256(0) == 1);
        assert(x / 1 == x);
    }
}

proof fn lemma_le_value_step(s: Seq<u8>, a: int, b: int)
    requires
        0 <= a < b <= s.len(),
    ensures
        le_value(s.subrange(a, b)) == s[a] as nat + 256 * le_value(s.subrange(a + 1, b)),
{
    assert(s.subrange(a, b).drop_first() =~= s.subrange(a + 1, b));
}

/// Appends the `n` low-order little-endian bytes of `x` to `out`.
pub fn put_le(out: &mut Vec<u8>, x: u64, n: usize)
    requires
        n <= 8,
    ensures
        final(out)@ == old(out)@ + le_bytes(x as nat, n as nat),
{
    let mut v: u64 = x;
    let mut i: usize = 0;
    proof {
        lemma_pow256_pos(0);
        assert(pow256(0) == 1);
        assert(x as nat / 1 == x as nat);
    }
    while i < n
        invariant
            i <= n,
            n <= 8,
            pow256(i as nat) >= 1,
            v as nat == x as nat / pow256(i as nat),
            out@ == old(out)@ + le_bytes(x as nat, i as nat),
        decreases n - i,
    {
        proof {
            lemma_le_bytes_push(x as nat, i as nat);
            lemma_div_denominator(x as int, pow256(i as nat) as int, 256);
            lemma_pow256_pos(i as nat + 1);
        }
        out.push((v % 256) as u8);
        v = v / 256;
        i = i + 1;
        assert(out@ =~= old(out)@ + le_bytes(x as nat, i as nat));
    }
}

/// Reads the `n` little-endian bytes of `data` that start at `off`.
pub fn get_le(data: &[u8], off: usize, n: usize) -> (r: u64)
    requires
        n <= 8,
        off + n <= data@.len(),
    ensures
        r as nat == le_value(data@.subrange(off as int, off + n)),
{
    let _len = data.len();
    let mut v: u64 = 0;
    let mut i: usize = n;
    proof {
        lemma_pow256_values();
        assert(data@.subrange(off + n, off + n).len() == 0);
    }
    while i > 0
        invariant
            i <= n,
            n <= 8,
            off + n <= data@.len(),
            pow256(8) == 0x1_0000_0000_0000_0000,
            _len == data@.len(),
            v as nat == le_value(data@.subrange(off + i, off + n)),
        decreases i,
    {
        proof {
            lemma_le_value_step(data@, off + i - 1, off + n);
            lemma_le_value_bound(data@.subrange(off + i, off + n));
            lemma_pow256_mono((n - i + 1) as nat, 8);
        }
        let b = data[off + i - 1];
        v = v * 256 + b as u64;
        i = i - 1;
    }
    v
}

/// Appends the bytes of `src` to `out`.
pub fn put_bytes(out: &mut Vec<u8>, src: &[u8])
    ensures
        final(out)@ == old(out)@ + src@,
{
    let mut i: usize = 0;
    while i < src.len()
        invariant
            i <= src@.len(),
            out@ == old(out)@ + src@.subrange(0, i as int),
        decreases src@.len() - i,
    {
        out.push(src[i]);
        i = i + 1;
        assert(out@ =~= old(out)@ + src@.subrange(0, i as int));
    }
    assert(src@.subrange(0, src@.len() as int) =~= src@);
}

/// Copies the bytes `data[off .. off + n]` into a fresh vector.
pub fn copy_range(data: &[u8], off: usize, n: usize) -> (r: Vec<u8>)
    requires
        off + n <= data@.len(),
    ensures
        r@ == data@.subrange(off as int, off + n),
{
    let _len = data.len();
    let mut r: Vec<u8> = Vec::new();
    let mut i: usize = 0;
    while i < n
        invariant
            i <= n,
            off + n <= data@.len(),
            _len == data@.len(),
            r@ == data@.subrange(off as int, off + i),
        decreases n - i,
    {
        r.push(data[off + i]);
        i = i + 1;
        assert(r@ =~= data@.subrange(off as int, off + i));
    }
    r
}

// ---------------------------------------------------------------------------
// Sequences of 64-bit words
// ---------------------------------------------------------------------------

/// The little-endian bytes of a sequence of 64-bit words.
pub open spec fn words_bytes(w: Seq<u64>) -> Seq<u8>
    decreases w.len(),
{
    if w.len() == 0 {
        Seq::empty()
    } else {
        le_bytes(w[0] as nat, 8) + words_bytes(w.drop_first())
    }
}

/// The 64-bit words that bytes of a length divisible by eight encode.
pub open spec fn words_of(b: Seq<u8>) -> Seq<u64> {
    Seq::new(b.len() / 8, |k: int| le_value(b.subrange(8 * k, 8 * k + 8)) as u64)
}

pub proof fn lemma_words_bytes_len(w: Seq<u64>)
    ensures
        words_bytes(w).len() == 8 * w.len(),
    decreases w.len(),
{
    if w.len() > 0 {
        lemma_le_bytes_len(w[0] as nat, 8);
        lemma_words_bytes_len(w.drop_first());
    }
}

proof fn lemma_words_bytes_chunk(w: Seq<u64>, k: int)
    requires
        0 <= k < w.len(),
    ensures
        words_bytes(w).subrange(8 * k, 8 * k + 8) == le_bytes(w[k] as nat, 8),
    decreases w.len(),
{
    lemma_le_bytes_len(w[0] as nat, 8);
    lemma_words_bytes_len(w.drop_first());
    if k == 0 {
        assert(words_bytes(w).subrange(0, 8) =~= le_bytes(w[0] as nat, 8));
    } else {
        lemma_words_bytes_chunk(w.drop_first(), k - 1);
        assert(words_bytes(w).subrange(8 * k, 8 * k + 8) =~= words_bytes(w.drop_first()).subrange(
            8 * (k - 1),
            8 * (k - 1) + 8,
        ));
    }
}

/// Reading back the bytes of some words gives the words.
pub proof fn lemma_words_round_trip(w: Seq<u64>)
    ensures
        words_bytes(w).len() % 8 == 0,
        words_of(words_bytes(w)) =~= w,
{
    lemma_words_bytes_len(w);
    lemma_pow256_values();
    assert forall|k: int| 0 <= k < w.len() implies #[trigger] words_of(words_bytes(w))[k]
        == w[k] by {
        lemma_words_bytes_chunk(w, k);
        lemma_le_value_of_bytes(w[k] as nat, 8);
    }
}

proof fn lemma_words_bytes_push(w: Seq<u64>, x: u64)
    ensures
        words_bytes(w.push(x)) =~= words_bytes(w) + le_bytes(x as nat, 8),
    decreases w.len(),
{
    let wx = w.push(x);
    if w.len() == 0 {
        assert(wx.drop_first() =~= Seq::<u64>::empty());
        assert(wx[0] == x);
        assert(words_bytes(wx) == le_bytes(x as nat, 8) + words_bytes(wx.drop_first()));
        assert(words_bytes(w) =~= Seq::<u8>::empty());
    } else {
        assert(wx.drop_first() =~= w.drop_first().push(x));
        lemma_words_bytes_push(w.drop_first(), x);
        assert(wx[0] == w[0]);
        let a = le_bytes(w[0] as nat, 8);
        let m = words_bytes(w.drop_first());
        let c = le_bytes(x as nat, 8);
        assert(words_bytes(wx) == a + words_bytes(wx.drop_first()));
        assert(words_bytes(w) == a + m);
        assert(a + (m + c) =~= (a + m) + c);
    }
}

/// Appends the bytes of the words `w` to `out`.
pub fn put_words(out: &mut Vec<u8>, w: &[u64])
    ensures
        final(out)@ == old(out)@ + words_bytes(w@),
{
    let mut i: usize = 0;
    while i < w.len()
        invariant
            i <= w@.len(),
            out@ == old(out)@ + words_bytes(w@.subrange(0, i as int)),
        decreases w@.len() - i,
    {
        proof {
            lemma_words_bytes_push(w@.subrange(0, i as int), w@[i as int]);
            assert(w@.subrange(0, i + 1) =~= w@.subrange(0, i as int).push(w@[i as int]));
        }
        put_le(out, w[i], 8);
        i = i + 1;
        assert(out@ =~= old(out)@ + words_bytes(w@.subrange(0, i as int)));
    }
    assert(w@.subrange(0, w@.len() as int) =~= w@);
}

/// Reads `data` as 64-bit words; its length must be a multiple of eight.
pub fn get_words(data: &[u8]) -> (r: Vec<u64>)
    requires
        data@.len() % 8 == 0,
    ensures
        r@ == words_of(data@),
{
    let len = data.len();
    let n = len / 8;
    let mut r: Vec<u64> = Vec::new();
    let mut k: usize = 0;
    while k < n
        invariant
            len == data@.len(),
            n == len / 8,
            k <= n,
            r@ =~= words_of(data@).subrange(0, k as int),
        decreases n - k,
    {
        let x = get_le(data, 8 * k, 8);
        r.push(x);
        k = k + 1;
    }
    r
}

// ---------------------------------------------------------------------------
// Payload checksum (Adler-32)
// ---------------------------------------------------------------------------

/// Modulus of both running sums.
pub const ADLER_MOD: u32 = 65521;

/// The two running sums `(a, b)` after the bytes of `s`, starting from `(1, 0)`.
pub open spec fn adler_sums(s: Seq<u8>) -> (nat, nat)
    decreases s.len(),
{
    if s.len() == 0 {
        (1, 0)
    } else {
        let (a, b) = adler_sums(s.drop_last());
        let a2 = (a + s.last() as nat) % (ADLER_MOD as nat);
        (a2, (b + a2) % (ADLER_MOD as nat))
    }
}

/// The checksum of a payload: the second sum in the high half, the first in the low half.
pub open spec fn checksum_of(s: Seq<u8>) -> nat {
    adler_sums(s).1 * 65536 + adler_sums(s).0
}

proof fn lemma_adler_bounds(s: Seq<u8>)
    ensures
        adler_sums(s).0 < ADLER_MOD,
        adler_sums(s).1 < ADLER_MOD,
    decreases s.len(),
{
    if s.len() > 0 {
        lemma_adler_bounds(s.drop_last());
    }
}

/// Computes the checksum of `data`.
pub fn checksum(data: &[u8]) -> (r: u32)
    ensures
        r as nat == checksum_of(data@),
{
    let mut a: u32 = 1;
    let mut b: u32 = 0;
    let mut i: usize = 0;
    while i < data.len()
        invariant
            i <= data@.len(),
            (a as nat, b as nat) == adler_sums(data@.subrange(0, i as int)),
            a < ADLER_MOD,
            b < ADLER_MOD,
        decreases data@.len() - i,
    {
        assert(data@.subrange(0, i + 1).drop_last() =~= data@.subrange(0, i as int));
        a = (a + data[i] as u32) % ADLER_MOD;
        b = (b + a) % ADLER_MOD;
        i = i + 1;
    }
    assert(data@.subrange(0, data@.len() as int) =~= data@);
    b * 65536 + a
}

} // verus!
