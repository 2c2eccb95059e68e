use vstd::prelude::*;

use crate::config::{MAX_DIMENSION, SCALE};

verus! {

/// Sum of `a[i] * b[i]` over the first `n` positions.
pub open spec fn dot_upto(a: Seq<i16>, b: Seq<i16>, n: nat) -> int
    decreases n,
{
    if n == 0 {
        0
    } else {
        dot_upto(a, b, (n - 1) as nat) + a[n - 1] as int * b[n - 1] as int
    }
}

/// Dot product of two fingerprint vectors.
pub open spec fn dot(a: Seq<i16>, b: Seq<i16>) -> int {
    dot_upto(a, b, a.len())
}

/// Squared Euclidean norm.
pub open spec fn norm_sq(a: Seq<i16>) -> int {
    dot(a, a)
}

pub open spec fn is_floor_sqrt(x: int, r: int) -> bool {
    0 <= r && r * r <= x && x < (r + 1) * (r + 1)
}

/// The integer square root `floor(sqrt(x))`.
pub open spec fn floor_sqrt(x: int) -> int {
    choose|r: int| is_floor_sqrt(x, r)
}

/// Cosine similarity `dot(a,b) / sqrt(|a|^2 |b|^2)` in `SCALE` units,
/// truncated toward zero: the magnitude is the largest `q` with
/// `q^2 * |a|^2 * |b|^2 <= (SCALE * dot(a,b))^2`.
pub open spec fn similarity(a: Seq<i16>, b: Seq<i16>) -> int {
    let d = dot(a, b);
    let q = floor_sqrt((SCALE * SCALE * (d * d)) / (norm_sq(a) * norm_sq(b)));
    if d >= 0 {
        q
    } else {
        -q
    }
}

/// Whether a pair has a zero-norm member, which makes the similarity undefined.
pub open spec fn degenerate(a: Seq<i16>, b: Seq<i16>) -> bool {
    norm_sq(a) == 0 || norm_sq(b) == 0
}

/// Cosine distance `1 - similarity` in `SCALE` units; `None` is the
/// non-matching sentinel for a degenerate pair.
pub open spec fn distance(a: Seq<i16>, b: Seq<i16>) -> Option<int> {
    if degenerate(a, b) {
        None
    } else {
        Some(SCALE - similarity(a, b))
    }
}

/// A fingerprint vector that the fixed-width arithmetic can hold.
pub open spec fn dim_ok(a: Seq<i16>) -> bool {
    a.len() <= MAX_DIMENSION
}

pub open spec fn opt_int(o: Option<u64>) -> Option<int> {
    match o {
        Some(x) => Some(x as int),
        None => None,
    }
}

proof fn lemma_product_bound(x: i16, y: i16)
    ensures
        -0x4000_0000 <= x as int * y as int <= 0x4000_0000,
{
    assert(-0x4000_0000 <= x as int * y as int <= 0x4000_0000) by (nonlinear_arith)
        requires
            -0x8000 <= x <= 0x7fff,
            -0x8000 <= y <= 0x7fff,
    ;
}

proof fn lemma_dot_bound(a: Seq<i16>, b: Seq<i16>, n: nat)
    requires
        n <= a.len(),
        n <= b.len(),
    ensures
        -(n as int) * 0x4000_0000 <= dot_upto(a, b, n) <= n as int * 0x4000_0000,
    decreases n,
{
    if n > 0 {
        lemma_dot_bound(a, b, (n - 1) as nat);
        lemma_product_bound(a[n - 1], b[n - 1]);
    }
}

proof fn lemma_norm_nonneg(a: Seq<i16>, n: nat)
    requires
        n <= a.len(),
    ensures
        dot_upto(a, a, n) >= 0,
    decreases n,
{
    if n > 0 {
        lemma_norm_nonneg(a, (n - 1) as nat);
        let x = a[n - 1] as int;
        assert(x * x >= 0) by (nonlinear_arith);
    }
}

proof fn lemma_cauchy_schwarz_step(aa: int, bb: int, c: int, x: int, y: int)
    requires
        aa >= 0,
        bb >= 0,
        c * c <= aa * bb,
    ensures
        (c + x * y) * (c + x * y) <= (aa + x * x) * (bb + y * y),
{
    let t = (x * y) * (x * y);
    let p = aa * (y * y);
    let q = bb * (x * x);
    let r = c * (x * y);
    assert(t >= 0) by (nonlinear_arith)
        requires
            t == (x * y) * (x * y),
    ;
    assert(p >= 0 && q >= 0) by (nonlinear_arith)
        requires
            aa >= 0,
            bb >= 0,
            p == aa * (y * y),
            q == bb * (x * x),
    ;
    assert(c * c * t <= aa * bb * t) by (nonlinear_arith)
        requires
            c * c <= aa * bb,
            t >= 0,
    ;
    assert(p * q == aa * bb * t) by (nonlinear_arith)
        requires
            p == aa * (y * y),
            q == bb * (x * x),
            t == (x * y) * (x * y),
    ;
    assert(r * r == c * c * t) by (nonlinear_arith)
        requires
            r == c * (x * y),
            t == (x * y) * (x * y),
    ;
    assert((p + q) * (p + q) >= 4 * (r * r)) by (nonlinear_arith)
        requires
            p * q >= r * r,
    ;
    assert(p + q >= 2 * r) by (nonlinear_arith)
        requires
            (p + q) * (p + q) >= 4 * (r * r),
            p >= 0,
            q >= 0,
    ;
    assert((c + x * y) * (c + x * y) == c * c + 2 * r + t) by (nonlinear_arith)
        requires
            r == c * (x * y),
            t == (x * y) * (x * y),
    ;
    assert((aa + x * x) * (bb + y * y) == aa * bb + p + q + t) by (nonlinear_arith)
        requires
            p == aa * (y * y),
            q == bb * (x * x),
            t == (x * y) * (x * y),
    ;
}

/// Cauchy-Schwarz over the first `n` positions.
proof fn lemma_cauchy_schwarz(a: Seq<i16>, b: Seq<i16>, n: nat)
    requires
        n <= a.len(),
        n <= b.len(),
    ensures
        dot_upto(a, b, n) * dot_upto(a, b, n) <= dot_upto(a, a, n) * dot_upto(b, b, n),
    decreases n,
{
    if n > 0 {
        let m = (n - 1) as nat;
        lemma_cauchy_schwarz(a, b, m);
        lemma_norm_nonneg(a, m);
        lemma_norm_nonneg(b, m);
        lemma_cauchy_schwarz_step(
            dot_upto(a, a, m),
            dot_upto(b, b, m),
            dot_upto(a, b, m),
            a[m as int] as int,
            b[m as int] as int,
        );
    }
}

proof fn lemma_floor_sqrt_unique(x: int, r: int)
    requires
        is_floor_sqrt(x, r),
    ensures
        floor_sqrt(x) == r,
{
    let s = floor_sqrt(x);
    assert(is_floor_sqrt(x, s));
    if s < r {
        assert((s + 1) * (s + 1) <= r * r) by (nonlinear_arith)
            requires
                0 <= s < r,
        ;
    } else if r < s {
        assert((r + 1) * (r + 1) <= s * s) by (nonlinear_arith)
            requires
                0 <= r < s,
        ;
    }
}

/// `|d| <= floor_sqrt(x)` whenever `d * d <= x`.
proof fn lemma_abs_below_sqrt(d: int, x: int, s: int)
    requires
        d * d <= x,
        is_floor_sqrt(x, s),
    ensures
        -s <= d <= s,
{
    if d > s {
        assert((s + 1) * (s + 1) <= d * d) by (nonlinear_arith)
            requires
                0 <= s < d,
        ;
    } else if d < -s {
        assert((s + 1) * (s + 1) <= d * d) by (nonlinear_arith)
            requires
                0 <= s,
                d < -s,
        ;
    }
}

/// Facts about `distance` for vectors of equal length: the sentinel appears
/// exactly for degenerate pairs, a defined distance lies in `[0, 2 * SCALE]`,
/// and a nonzero vector is at distance `0` from itself.
pub proof fn lemma_distance_facts(a: Seq<i16>, b: Seq<i16>)
    requires
        a.len() == b.len(),
    ensures
        distance(a, b).is_none() <==> degenerate(a, b),
        distance(a, b) matches Some(d) ==> 0 <= d <= 2 * SCALE,
        norm_sq(a) > 0 ==> distance(a, a) == Some(0int),
{
    lemma_norm_nonneg(a, a.len());
    lemma_norm_nonneg(b, b.len());
    if !degenerate(a, b) {
        lemma_similarity_range(a, b);
    }
    if norm_sq(a) > 0 {
        let na = norm_sq(a);
        let ss = SCALE * SCALE;
        assert((ss * (na * na)) / (na * na) == ss) by (nonlinear_arith)
            requires
                na > 0,
        ;
        assert(is_floor_sqrt(ss, SCALE as int));
        lemma_floor_sqrt_unique(ss, SCALE as int);
    }
}

proof fn lemma_similarity_range(a: Seq<i16>, b: Seq<i16>)
    requires
        a.len() == b.len(),
        !degenerate(a, b),
    ensures
        -(SCALE as int) <= similarity(a, b) <= SCALE,
        0 <= (SCALE * SCALE * (dot(a, b) * dot(a, b))) / (norm_sq(a) * norm_sq(b)) <= SCALE
            * SCALE,
{
    let na = norm_sq(a);
    let nb = norm_sq(b);
    let d = dot(a, b);
    lemma_norm_nonneg(a, a.len());
    lemma_norm_nonneg(b, b.len());
    lemma_cauchy_schwarz(a, b, a.len());
    let x = na * nb;
    let ss = SCALE * SCALE;
    assert(x >= 1) by (nonlinear_arith)
        requires
            x == na * nb,
            na >= 1,
            nb >= 1,
    ;
    let t = (ss * (d * d)) / x;
    assert(0 <= t <= ss) by (nonlinear_arith)
        requires
            t == (ss * (d * d)) / x,
            d * d <= x,
            x >= 1,
            ss > 0,
    ;
    lemma_floor_sqrt_exists(t);
    let q = floor_sqrt(t);
    assert(q <= SCALE) by (nonlinear_arith)
        requires
            is_floor_sqrt(t, q),
            t <= SCALE * SCALE,
    ;
}

proof fn lemma_floor_sqrt_exists(x: int)
    requires
        x >= 0,
    ensures
        is_floor_sqrt(x, floor_sqrt(x)),
    decreases x,
{
    if x == 0 {
        assert(is_floor_sqrt(0, 0));
        assert(exists|w: int| is_floor_sqrt(x, w));
    } else {
        lemma_floor_sqrt_exists(x - 1);
        let r = floor_sqrt(x - 1);
        if x < (r + 1) * (r + 1) {
            assert(is_floor_sqrt(x, r));
            assert(exists|w: int| is_floor_sqrt(x, w));
        } else {
            assert(is_floor_sqrt(x, r + 1)) by (nonlinear_arith)
                requires
                    r >= 0,
                    x == (r + 1) * (r + 1),
            ;
            assert(exists|w: int| is_floor_sqrt(x, w));
        }
    }
}


/// Dot product of two vectors of equal length.
pub fn dot_product(a: &[i16], b: &[i16]) -> (r: i64)
    requires
        a@.len() == b@.len(),
        dim_ok(a@),
    ensures
        r == dot(a@, b@),
{
    let mut acc: i64 = 0;
    let mut i: usize = 0;
    while i < a.len()
        invariant
            i <= a@.len(),
            a@.len() == b@.len(),
            dim_ok(a@),
            acc == dot_upto(a@, b@, i as nat),
        decreases a@.len() - i,
    {
        proof {
            lemma_dot_bound(a@, b@, i as nat);
            lemma_product_bound(a@[i as int], b@[i as int]);
        }
        acc = acc + (a[i] as i64) * (b[i] as i64);
        i = i + 1;
    }
    acc
}

/// Squared Euclidean norm of a vector.
pub fn magnitude_sq(v: &[i16]) -> (r: i64)
    requires
        dim_ok(v@),
    ensures
        r == norm_sq(v@),
        r >= 0,
{
    proof {
        lemma_norm_nonneg(v@, v@.len());
    }
    dot_product(v, v)
}

/// Integer square root by bisection.
fn floor_sqrt_u128(x: u128) -> (r: u128)
    requires
        x < 0x4000_0000_0000_0000_0000_0000,
    ensures
        r == floor_sqrt(x as int),
{
    let mut lo: u128 = 0;
    let mut hi: u128 = 0x8000_0000_0000;
    assert(hi * hi == 0x4000_0000_0000_0000_0000_0000);
    while lo + 1 < hi
        invariant
            lo < hi <= 0x8000_0000_0000,
            lo * lo <= x,
            x < hi * hi,
        decreases hi - lo,
    {
        let mid = lo + (hi - lo) / 2;
        assert(mid * mid <= 0x4000_0000_0000_0000_0000_0000) by (nonlinear_arith)
            requires
                mid <= 0x8000_0000_0000,
        ;
        if mid * mid <= x {
            lo = mid;
        } else {
            hi = mid;
        }
    }
    proof {
        assert(hi == lo + 1);
        lemma_floor_sqrt_unique(x as int, lo as int);
    }
    lo
}

/// Cosine distance between two fingerprint vectors in `SCALE` units, or
/// `None` when either vector has zero norm. Both vectors must have the same
/// dimensionality.
pub fn distance_cosine(a: &[i16], b: &[i16]) -> (r: Option<u64>)
    requires
        a@.len() == b@.len(),
        dim_ok(a@),
    ensures
        opt_int(r) == distance(a@, b@),
{
    let na = magnitude_sq(a);
    let nb = magnitude_sq(b);
    if na == 0 || nb == 0 {
        return None;
    }
    let d = dot_product(a, b);
    proof {
        lemma_dot_bound(a@, a@, a@.len());
        lemma_dot_bound(b@, b@, b@.len());
        lemma_dot_bound(a@, b@, a@.len());
        lemma_distance_facts(a@, b@);
        lemma_similarity_range(a@, b@);
        assert(na as int * nb as int <= 0x400_0000_0000 * 0x400_0000_0000) by (nonlinear_arith)
            requires
                0 <= na <= 0x400_0000_0000,
                0 <= nb <= 0x400_0000_0000,
        ;
    }
    let x: u128 = (na as u128) * (nb as u128);
    let ad: u128 = if d >= 0 {
        d as u128
    } else {
        (-(d as i128)) as u128
    };
    assert(ad * ad <= 0x400_0000_0000 * 0x400_0000_0000) by (nonlinear_arith)
        requires
            ad <= 0x400_0000_0000,
    ;
    assert(ad * ad == d * d) by (nonlinear_arith)
        requires
            ad == d || ad == -d,
    ;
    let ss: u128 = (SCALE as u128) * (SCALE as u128);
    assert(ss * (ad * ad) <= 0x100_0000_0000 * (0x400_0000_0000 * 0x400_0000_0000))
        by (nonlinear_arith)
        requires
            ss == 1_000_000_000_000,
            ad * ad <= 0x400_0000_0000 * 0x400_0000_0000,
    ;
    let num: u128 = ss * (ad * ad);
    proof {
        assert(x >= 1) by (nonlinear_arith)
            requires
                x == na * nb,
                na >= 1,
                nb >= 1,
        ;
        assert(num / x <= num) by (nonlinear_arith)
            requires
                x >= 1,
                num >= 0,
        ;
    }
    let t: u128 = num / x;
    assert(t <= 1_000_000_000_000);
    let q = floor_sqrt_u128(t);
    if d >= 0 {
        Some(SCALE - q as u64)
    } else {
        Some(SCALE + q as u64)
    }
}

} // verus!
