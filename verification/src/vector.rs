//! Vector arithmetic: little-endian serialization of 32-bit words,
//! fixed-point cosine similarity, and weighted hybrid score fusion.
//!
//! Real-valued quantities are carried as fixed-point integers counted in
//! millionths (see [`crate::SCALE`]): a score of `SCALE` stands for 1.0,
//! and a vector component of `SCALE` stands for 1.0.

use vstd::prelude::*;

verus! {

use crate::SCALE;

// ---------------------------------------------------------------------------
// Serialization: a vector of 32-bit words <-> little-endian bytes.
// ---------------------------------------------------------------------------

/// The four little-endian bytes of one 32-bit word.
pub open spec fn word_le_bytes(x: u32) -> Seq<u8> {
    seq![
        (x & 0xff) as u8,
        ((x >> 8) & 0xff) as u8,
        ((x >> 16) & 0xff) as u8,
        ((x >> 24) & 0xff) as u8,
    ]
}

/// The word encoded by four little-endian bytes.
pub open spec fn word_from_le_bytes(b0: u8, b1: u8, b2: u8, b3: u8) -> u32 {
    (b0 as u32) | ((b1 as u32) << 8) | ((b2 as u32) << 16) | ((b3 as u32) << 24)
}

/// Little-endian byte stream of a word sequence.
pub open spec fn bytes_of_words(s: Seq<u32>) -> Seq<u8>
    decreases s.len(),
{
    if s.len() == 0 {
        Seq::empty()
    } else {
        word_le_bytes(s[0]) + bytes_of_words(s.drop_first())
    }
}

/// Words decoded from a byte stream, whole 4-byte chunks only;
/// a trailing partial chunk is discarded.
pub open spec fn words_of_bytes(b: Seq<u8>) -> Seq<u32>
    decreases b.len(),
{
    if b.len() < 4 {
        Seq::empty()
    } else {
        seq![word_from_le_bytes(b[0], b[1], b[2], b[3])] + words_of_bytes(b.skip(4))
    }
}

proof fn lemma_word_roundtrip(x: u32)
    ensures
        word_from_le_bytes(
            (x & 0xff) as u8,
            ((x >> 8) & 0xff) as u8,
            ((x >> 16) & 0xff) as u8,
            ((x >> 24) & 0xff) as u8,
        ) == x,
{
    assert(((x & 0xff) as u8 as u32) | ((((x >> 8) & 0xff) as u8 as u32) << 8)
        | ((((x >> 16) & 0xff) as u8 as u32) << 16) | ((((x >> 24) & 0xff) as u8 as u32) << 24)
        == x) by (bit_vector);
}

proof fn lemma_bytes_of_words_len(s: Seq<u32>)
    ensures
        bytes_of_words(s).len() == 4 * s.len(),
    decreases s.len(),
{
    if s.len() > 0 {
        lemma_bytes_of_words_len(s.drop_first());
    }
}

proof fn lemma_bytes_of_words_push(s: Seq<u32>, x: u32)
    ensures
        bytes_of_words(s.push(x)) == bytes_of_words(s) + word_le_bytes(x),
    decreases s.len(),
{
    if s.len() == 0 {
        assert(s.push(x)[0] == x);
        assert(s.push(x).len() == 1);
        assert(s.push(x).drop_first() =~= Seq::<u32>::empty());
        assert(bytes_of_words(s.push(x)) == word_le_bytes(s.push(x)[0]) + bytes_of_words(
            s.push(x).drop_first(),
        ));
        assert(bytes_of_words(Seq::<u32>::empty()) =~= Seq::<u8>::empty());
        assert(bytes_of_words(s) =~= Seq::<u8>::empty());
        assert(bytes_of_words(s.push(x)) =~= bytes_of_words(s) + word_le_bytes(x));
    } else {
        assert(s.push(x)[0] == s[0]);
        assert(s.push(x).drop_first() =~= s.drop_first().push(x));
        lemma_bytes_of_words_push(s.drop_first(), x);
        assert(bytes_of_words(s.push(x)) =~= bytes_of_words(s) + word_le_bytes(x));
    }
}

/// Serialize a vector of 32-bit words to little-endian bytes,
/// four bytes per word.
pub fn vec_to_bytes(v: &Vec<u32>) -> (r: Vec<u8>)
    ensures
        r@ == bytes_of_words(v@),
        r@.len() == 4 * v@.len(),
{
    let mut r: Vec<u8> = Vec::new();
    let mut i: usize = 0;
    while i < v.len()
        invariant
            i <= v.len(),
            r@ == bytes_of_words(v@.take(i as int)),
        decreases v.len() - i,
    {
        let x: u32 = v[i];
        proof {
            assert(v@.take(i + 1 as int) =~= v@.take(i as int).push(x));
            lemma_bytes_of_words_push(v@.take(i as int), x);
        }
        r.push((x & 0xff) as u8);
        r.push(((x >> 8) & 0xff) as u8);
        r.push(((x >> 16) & 0xff) as u8);
        r.push(((x >> 24) & 0xff) as u8);
        proof {
            assert(r@ =~= bytes_of_words(v@.take(i as int)) + word_le_bytes(x));
        }
        i = i + 1;
    }
    proof {
        assert(v@.take(v@.len() as int) =~= v@);
        lemma_bytes_of_words_len(v@);
    }
    r
}

proof fn lemma_words_of_bytes_chunk(b: Seq<u8>, i: int)
    requires
        0 <= i,
        i + 4 <= b.len(),
        i % 4 == 0,
    ensures
        words_of_bytes(b.take(i + 4)) == words_of_bytes(b.take(i)).push(
            word_from_le_bytes(b[i], b[i + 1], b[i + 2], b[i + 3]),
        ),
    decreases i,
{
    if i == 0 {
        let t = b.take(4);
        assert(t[0] == b[0] && t[1] == b[1] && t[2] == b[2] && t[3] == b[3]);
        assert(t.len() == 4);
        assert(t.skip(4) =~= Seq::<u8>::empty());
        assert(words_of_bytes(t) == seq![word_from_le_bytes(t[0], t[1], t[2], t[3])]
            + words_of_bytes(t.skip(4)));
        assert(words_of_bytes(Seq::<u8>::empty()) =~= Seq::<u32>::empty());
        assert(b.take(0) =~= Seq::<u8>::empty());
        assert(words_of_bytes(b.take(0)) =~= Seq::<u32>::empty());
        assert(words_of_bytes(t) =~= words_of_bytes(b.take(0)).push(
            word_from_le_bytes(b[0], b[1], b[2], b[3]),
        ));
    } else {
        let t4 = b.take(i + 4);
        let t0 = b.take(i);
        assert(t4.len() >= 4);
        assert(t0.len() >= 4);
        assert(t4.skip(4) =~= b.skip(4).take(i));
        assert(t0.skip(4) =~= b.skip(4).take(i - 4));
        lemma_words_of_bytes_chunk(b.skip(4), i - 4);
        assert(words_of_bytes(t4) =~= words_of_bytes(t0).push(
            word_from_le_bytes(b[i], b[i + 1], b[i + 2], b[i + 3]),
        ));
    }
}

proof fn lemma_words_of_bytes_tail(b: Seq<u8>, i: int)
    requires
        0 <= i <= b.len(),
        i % 4 == 0,
        b.len() - i < 4,
    ensures
        words_of_bytes(b) == words_of_bytes(b.take(i)),
    decreases i,
{
    if i == 0 {
        assert(b.take(0) =~= Seq::<u8>::empty());
    } else {
        assert(b.len() >= 4);
        assert(b.take(i).len() >= 4);
        assert(b.take(i).skip(4) =~= b.skip(4).take(i - 4));
        lemma_words_of_bytes_tail(b.skip(4), i - 4);
        assert(words_of_bytes(b) =~= words_of_bytes(b.take(i)));
    }
}

/// Deserialize little-endian bytes to a vector of 32-bit words.
/// Whole 4-byte chunks are consumed; a trailing partial chunk is discarded.
pub fn bytes_to_vec(bytes: &Vec<u8>) -> (r: Vec<u32>)
    ensures
        r@ == words_of_bytes(bytes@),
{
    let mut r: Vec<u32> = Vec::new();
    let mut i: usize = 0;
    while bytes.len() - i >= 4
        invariant
            i <= bytes.len(),
            i % 4 == 0,
            r@ == words_of_bytes(bytes@.take(i as int)),
        decreases bytes.len() - i,
    {
        let w: u32 = (bytes[i] as u32) | ((bytes[i + 1] as u32) << 8)
            | ((bytes[i + 2] as u32) << 16) | ((bytes[i + 3] as u32) << 24);
        proof {
            lemma_words_of_bytes_chunk(bytes@, i as int);
        }
        r.push(w);
        i = i + 4;
    }
    proof {
        lemma_words_of_bytes_tail(bytes@, i as int);
    }
    r
}

/// Serialization round-trip: decoding an encoded word vector gives it back
/// exactly, whatever the words hold.
pub proof fn lemma_roundtrip(s: Seq<u32>)
    ensures
        words_of_bytes(bytes_of_words(s)) == s,
    decreases s.len(),
{
    if s.len() == 0 {
        assert(words_of_bytes(bytes_of_words(s)) =~= s);
    } else {
        let x = s[0];
        let b = bytes_of_words(s);
        lemma_bytes_of_words_len(s.drop_first());
        assert(b.len() == 4 + bytes_of_words(s.drop_first()).len());
        assert(b.skip(4) =~= bytes_of_words(s.drop_first()));
        lemma_word_roundtrip(x);
        lemma_roundtrip(s.drop_first());
        assert(words_of_bytes(bytes_of_words(s)) =~= s);
    }
}

// ---------------------------------------------------------------------------
// Cosine similarity over fixed-point vectors.
// ---------------------------------------------------------------------------

/// Dot product of two equal-length component sequences, as an unbounded integer.
pub open spec fn dot(a: Seq<i32>, b: Seq<i32>) -> int
    decreases a.len(),
{
    if a.len() == 0 || b.len() == 0 {
        0
    } else {
        a[0] * b[0] + dot(a.drop_first(), b.drop_first())
    }
}

/// Largest root found from candidate `r` upward.
pub open spec fn sqrt_from(n: nat, r: nat) -> nat
    decreases n - r,
    when r * r <= n
    via sqrt_from_decreases
{
    if (r + 1) * (r + 1) <= n {
        sqrt_from(n, r + 1)
    } else {
        r
    }
}

#[via_fn]
proof fn sqrt_from_decreases(n: nat, r: nat) {
    if (r + 1) * (r + 1) <= n {
        assert(r + 1 <= (r + 1) * (r + 1)) by (nonlinear_arith);
    }
}

/// Integer square root: the largest `s` with `s * s <= n`.
pub open spec fn sqrt_floor(n: nat) -> nat {
    sqrt_from(n, 0)
}

proof fn lemma_sqrt_from(n: nat, r: nat)
    requires
        r * r <= n,
    ensures
        sqrt_from(n, r) * sqrt_from(n, r) <= n,
        n < (sqrt_from(n, r) + 1) * (sqrt_from(n, r) + 1),
        sqrt_from(n, r) >= r,
    decreases n - r,
{
    if (r + 1) * (r + 1) <= n {
        assert(r + 1 <= (r + 1) * (r + 1)) by (nonlinear_arith);
        lemma_sqrt_from(n, r + 1);
    }
}

/// The two defining bounds of the integer square root.
pub proof fn lemma_sqrt_floor(n: nat)
    ensures
        sqrt_floor(n) * sqrt_floor(n) <= n,
        n < (sqrt_floor(n) + 1) * (sqrt_floor(n) + 1),
{
    lemma_sqrt_from(n, 0);
}

proof fn lemma_sqrt_pos(n: nat)
    requires
        n >= 1,
    ensures
        sqrt_floor(n) >= 1,
{
    lemma_sqrt_floor(n);
    let s = sqrt_floor(n);
    if s == 0 {
        assert((s + 1) * (s + 1) == 1) by (nonlinear_arith)
            requires
                s == 0nat,
        ;
    }
}

/// Any value meeting both bounds is the integer square root.
pub proof fn lemma_sqrt_unique(n: nat, r: nat)
    requires
        r * r <= n,
        n < (r + 1) * (r + 1),
    ensures
        r == sqrt_floor(n),
{
    lemma_sqrt_floor(n);
    let s = sqrt_floor(n);
    if r < s {
        assert((r + 1) * (r + 1) <= s * s) by (nonlinear_arith)
            requires
                r + 1 <= s,
        ;
    }
    if s < r {
        assert((s + 1) * (s + 1) <= r * r) by (nonlinear_arith)
            requires
                s + 1 <= r,
        ;
    }
}

/// Upper bound on any norm or dot product the engine can meet:
/// vector components fit 32 bits and lengths fit 32 bits, so the
/// accumulated magnitude stays at or below 2^94.
pub const NORM_CAP: u128 = 0x4000_0000_0000_0000_0000_0000;

/// Executable integer square root by binary search.
fn isqrt(n: u128) -> (r: u128)
    requires
        n <= NORM_CAP,
    ensures
        r == sqrt_floor(n as nat),
{
    let mut lo: u128 = 0;
    let mut hi: u128 = 0x8000_0000_0000;
    proof {
        assert(n < (0x8000_0000_0000u128 + 1) * (0x8000_0000_0000u128 + 1)) by (nonlinear_arith)
            requires
                n <= 0x4000_0000_0000_0000_0000_0000u128,
        ;
    }
    while lo < hi
        invariant
            lo <= hi,
            hi <= 0x8000_0000_0000,
            lo * lo <= n,
            n < (hi + 1) * (hi + 1),
        decreases hi - lo,
    {
        let mid: u128 = lo + (hi - lo + 1) / 2;
        proof {
            assert(lo < mid <= hi);
            assert(mid * mid <= 0x8000_0000_0000u128 * 0x8000_0000_0000u128)
                by (nonlinear_arith)
                requires
                    mid <= 0x8000_0000_0000u128,
            ;
        }
        if mid * mid <= n {
            lo = mid;
        } else {
            hi = mid - 1;
        }
    }
    proof {
        lemma_sqrt_unique(n as nat, lo as nat);
    }
    lo
}

/// Cosine similarity of two fixed-point component sequences, as a score in
/// `0 ..= SCALE`. Zero when the lengths differ, a side is empty or has zero
/// norm, or the dot product is not positive; otherwise the normalized dot
/// product, clamped above at `SCALE`.
pub open spec fn cosine_spec(a: Seq<i32>, b: Seq<i32>) -> u64 {
    if a.len() != b.len() || a.len() == 0 {
        0
    } else {
        let d = dot(a, b);
        let na = dot(a, a);
        let nb = dot(b, b);
        if na == 0 || nb == 0 || d <= 0 {
            0
        } else {
            let den = sqrt_floor(na as nat) * sqrt_floor(nb as nat);
            let q = d * (SCALE as int) / (den as int);
            if q > SCALE {
                SCALE
            } else {
                q as u64
            }
        }
    }
}

proof fn lemma_dot_push(a: Seq<i32>, b: Seq<i32>, x: i32, y: i32)
    requires
        a.len() == b.len(),
    ensures
        dot(a.push(x), b.push(y)) == dot(a, b) + x * y,
    decreases a.len(),
{
    if a.len() == 0 {
        assert(a.push(x)[0] == x && b.push(y)[0] == y);
        assert(a.push(x).drop_first() =~= Seq::<i32>::empty());
        assert(b.push(y).drop_first() =~= Seq::<i32>::empty());
        assert(dot(a.push(x), b.push(y)) == x * y + dot(
            Seq::<i32>::empty(),
            Seq::<i32>::empty(),
        ));
    } else {
        assert(a.push(x)[0] == a[0] && b.push(y)[0] == b[0]);
        assert(a.push(x).drop_first() =~= a.drop_first().push(x));
        assert(b.push(y).drop_first() =~= b.drop_first().push(y));
        lemma_dot_push(a.drop_first(), b.drop_first(), x, y);
    }
}

proof fn lemma_dot_bound(a: Seq<i32>, b: Seq<i32>)
    requires
        a.len() == b.len(),
    ensures
        -(a.len() * 0x4000_0000_0000_0000) <= dot(a, b) <= a.len() * 0x4000_0000_0000_0000,
    decreases a.len(),
{
    if a.len() > 0 {
        lemma_dot_bound(a.drop_first(), b.drop_first());
        assert(-0x4000_0000_0000_0000 <= a[0] * b[0] <= 0x4000_0000_0000_0000)
            by (nonlinear_arith)
            requires
                -0x8000_0000 <= a[0] <= 0x7fff_ffff,
                -0x8000_0000 <= b[0] <= 0x7fff_ffff,
        ;
        assert((a.len() - 1) * 0x4000_0000_0000_0000 + 0x4000_0000_0000_0000
            == a.len() * 0x4000_0000_0000_0000) by (nonlinear_arith);
    }
}

/// Dot products are symmetric.
pub proof fn lemma_dot_symmetry(a: Seq<i32>, b: Seq<i32>)
    ensures
        dot(a, b) == dot(b, a),
    decreases a.len(),
{
    if a.len() > 0 && b.len() > 0 {
        lemma_dot_symmetry(a.drop_first(), b.drop_first());
    }
}

/// A dot product of a sequence with itself is non-negative.
pub proof fn lemma_norm_nonneg(a: Seq<i32>)
    ensures
        dot(a, a) >= 0,
    decreases a.len(),
{
    if a.len() > 0 {
        lemma_norm_nonneg(a.drop_first());
        assert(a[0] * a[0] >= 0) by (nonlinear_arith);
    }
}

/// Cosine similarity. Accumulation is exact (unbounded-range integers
/// internally), the result a fixed-point score in `0 ..= SCALE`.
pub fn cosine_similarity(a: &Vec<i32>, b: &Vec<i32>) -> (r: u64)
    requires
        a@.len() <= 0x1_0000_0000,
        b@.len() <= 0x1_0000_0000,
    ensures
        r == cosine_spec(a@, b@),
        r <= SCALE,
{
    if a.len() != b.len() || a.len() == 0 {
        return 0;
    }
    let mut d: i128 = 0;
    let mut na: i128 = 0;
    let mut nb: i128 = 0;
    let mut i: usize = 0;
    while i < a.len()
        invariant
            a@.len() == b@.len(),
            a@.len() <= 0x1_0000_0000,
            i <= a@.len(),
            d == dot(a@.take(i as int), b@.take(i as int)),
            na == dot(a@.take(i as int), a@.take(i as int)),
            nb == dot(b@.take(i as int), b@.take(i as int)),
            -(i * 0x4000_0000_0000_0000) <= d <= i * 0x4000_0000_0000_0000,
            0 <= na <= i * 0x4000_0000_0000_0000,
            0 <= nb <= i * 0x4000_0000_0000_0000,
        decreases a.len() - i,
    {
        let x: i32 = a[i];
        let y: i32 = b[i];
        proof {
            assert(a@.take(i + 1 as int) =~= a@.take(i as int).push(x));
            assert(b@.take(i + 1 as int) =~= b@.take(i as int).push(y));
            lemma_dot_push(a@.take(i as int), b@.take(i as int), x, y);
            lemma_dot_push(a@.take(i as int), a@.take(i as int), x, x);
            lemma_dot_push(b@.take(i as int), b@.take(i as int), y, y);
            assert(-0x4000_0000_0000_0000 <= (x as int) * (y as int) <= 0x4000_0000_0000_0000
                && 0 <= (x as int) * (x as int) <= 0x4000_0000_0000_0000
                && 0 <= (y as int) * (y as int) <= 0x4000_0000_0000_0000)
                by (nonlinear_arith)
                requires
                    -0x8000_0000 <= x as int <= 0x7fff_ffff,
                    -0x8000_0000 <= y as int <= 0x7fff_ffff,
            ;
            assert((i as int + 1) * 0x4000_0000_0000_0000
                == i as int * 0x4000_0000_0000_0000 + 0x4000_0000_0000_0000)
                by (nonlinear_arith);
            assert((i as int + 1) * 0x4000_0000_0000_0000
                <= 0x1_0000_0000 * 0x4000_0000_0000_0000) by (nonlinear_arith)
                requires
                    0 <= i as int + 1 <= 0x1_0000_0000,
            ;
            assert(0x1_0000_0000 * 0x4000_0000_0000_0000 == 0x4000_0000_0000_0000_0000_0000)
                by (nonlinear_arith);
        }
        d = d + (x as i128) * (y as i128);
        na = na + (x as i128) * (x as i128);
        nb = nb + (y as i128) * (y as i128);
        i = i + 1;
    }
    proof {
        assert(a@.take(a@.len() as int) =~= a@);
        assert(b@.take(b@.len() as int) =~= b@);
        assert(a@.len() as int * 0x4000_0000_0000_0000
            <= 0x1_0000_0000 * 0x4000_0000_0000_0000) by (nonlinear_arith)
            requires
                0 <= a@.len() as int <= 0x1_0000_0000,
        ;
        assert(0x1_0000_0000 * 0x4000_0000_0000_0000 == 0x4000_0000_0000_0000_0000_0000)
            by (nonlinear_arith);
    }
    if na == 0 || nb == 0 || d <= 0 {
        return 0;
    }
    let sa: u128 = isqrt(na as u128);
    let sb: u128 = isqrt(nb as u128);
    proof {
        lemma_sqrt_floor(na as nat);
        lemma_sqrt_floor(nb as nat);
        assert(na as nat == (na as u128) as nat);
        assert(nb as nat == (nb as u128) as nat);
        lemma_sqrt_pos(na as nat);
        lemma_sqrt_pos(nb as nat);
        assert(sa >= 1 && sb >= 1);
        assert(1 <= sa * sb && sa * sb <= 0x4000_0000_0000_0000_0000_0000u128)
            by (nonlinear_arith)
            requires
                1 <= sa,
                1 <= sb,
                sa * sa <= na as u128,
                sb * sb <= nb as u128,
                na as u128 <= 0x4000_0000_0000_0000_0000_0000u128,
                nb as u128 <= 0x4000_0000_0000_0000_0000_0000u128,
        ;
        assert((d as u128) * (SCALE as u128)
            <= 0x4000_0000_0000_0000_0000_0000u128 * 1_000_000u128) by (nonlinear_arith)
            requires
                0 < d as u128 <= 0x4000_0000_0000_0000_0000_0000u128,
                SCALE == 1_000_000u64,
        ;
        assert(0x4000_0000_0000_0000_0000_0000u128 * 1_000_000u128 < u128::MAX)
            by (nonlinear_arith);
    }
    let den: u128 = sa * sb;
    let q: u128 = (d as u128) * (SCALE as u128) / den;
    if q > SCALE as u128 {
        SCALE
    } else {
        q as u64
    }
}

/// Cosine identity: a vector with positive norm has similarity exactly
/// `SCALE` (that is, 1.0) with itself. A vector of zero norm is excluded:
/// there the similarity is 0 by definition.
pub proof fn lemma_cosine_self(v: Seq<i32>)
    requires
        v.len() > 0,
        dot(v, v) > 0,
    ensures
        cosine_spec(v, v) == SCALE,
{
    let n = dot(v, v);
    lemma_sqrt_floor(n as nat);
    lemma_sqrt_pos(n as nat);
    let s = sqrt_floor(n as nat);
    assert(s >= 1);
    let den: int = (s as int) * (s as int);
    assert(1 <= den && den <= n) by (nonlinear_arith)
        requires
            1 <= s,
            s * s <= n,
            den == (s as int) * (s as int),
    ;
    assert(den * 1_000_000 <= n * 1_000_000) by (nonlinear_arith)
        requires
            den <= n,
    ;
    vstd::arithmetic::div_mod::lemma_div_is_ordered(den * 1_000_000, n * 1_000_000, den);
    vstd::arithmetic::div_mod::lemma_div_multiples_vanish(1_000_000, den);
    assert(den * 1_000_000 == 1_000_000 * den) by (nonlinear_arith);
    assert((den * 1_000_000) / den == 1_000_000);
    assert(n * (SCALE as int) / den >= SCALE);
}

/// Cosine symmetry: the similarity does not depend on the order of its
/// arguments.
pub proof fn lemma_cosine_symmetry(a: Seq<i32>, b: Seq<i32>)
    ensures
        cosine_spec(a, b) == cosine_spec(b, a),
{
    lemma_dot_symmetry(a, b);
    let na = dot(a, a);
    let nb = dot(b, b);
    assert(sqrt_floor(na as nat) * sqrt_floor(nb as nat) == sqrt_floor(nb as nat) * sqrt_floor(
        na as nat,
    )) by (nonlinear_arith);
}

} // verus!
