//! Integer term-frequency cosine similarity.
//!
//! Similarity values are exact fixed-point integers: a similarity of 1 is
//! represented as [`SCALE`], so every result is a number of parts per
//! million, clipped to `[-SCALE, SCALE]`.  The dot product and the two
//! vector norms are computed exactly; the square root of the norm product
//! is a floor square root taken after scaling, so the quotient carries six
//! significant decimal digits.

use vstd::arithmetic::div_mod::lemma_div_multiples_vanish;
use vstd::prelude::*;

verus! {

/// Fixed-point scale: a similarity of 1 is `SCALE` parts per million.
pub const SCALE: u64 = 1_000_000;

/// Largest vector length that `cosine_similarity` accepts.
pub const MAX_DIMENSIONS: usize = 10_000;

/// Largest element magnitude that `cosine_similarity` accepts.
pub const MAX_MAGNITUDE: i64 = 10_000;

/// Dot product of two integer vectors, pairing elements from the end;
/// meaningful when both vectors have the same length.
pub open spec fn dot(a: Seq<int>, b: Seq<int>) -> int
    recommends
        a.len() == b.len(),
    decreases a.len(),
{
    if a.len() == 0 || b.len() == 0 {
        0
    } else {
        dot(a.drop_last(), b.drop_last()) + a.last() * b.last()
    }
}

/// The integer views of a vector of machine integers.
pub open spec fn int_view(v: Seq<i64>) -> Seq<int> {
    v.map_values(|x: i64| x as int)
}

/// `r` is the floor of the square root of `n`.
pub open spec fn is_sqrt_floor(n: int, r: int) -> bool {
    0 <= r && r * r <= n && n < (r + 1) * (r + 1)
}

/// The floor of the square root of a non-negative integer.
pub open spec fn sqrt_floor(n: int) -> int {
    choose|r: int| is_sqrt_floor(n, r)
}

/// The cosine similarity of two integer vectors, in parts per million:
/// exactly 0 when the dot product is 0, otherwise the scaled quotient of
/// the dot product by the floor square root of the product of the two
/// squared norms, clipped to `[-SCALE, SCALE]`.
pub open spec fn spec_cosine(a: Seq<int>, b: Seq<int>) -> int {
    let d = dot(a, b);
    if d == 0 {
        0
    } else {
        let den = sqrt_floor(dot(a, a) * dot(b, b) * (SCALE as int) * (SCALE as int));
        let mag = vstd::math::min(
            SCALE as int,
            (vstd::math::abs(d) as int) * (SCALE as int) * (SCALE as int) / den,
        );
        if d > 0 {
            mag
        } else {
            -mag
        }
    }
}

pub proof fn lemma_sqrt_floor_exists(n: int)
    requires
        0 <= n,
    ensures
        is_sqrt_floor(n, sqrt_floor(n)),
    decreases n,
{
    if n == 0 {
        assert(is_sqrt_floor(0, 0));
    } else {
        lemma_sqrt_floor_exists(n - 1);
        let r = sqrt_floor(n - 1);
        if n < (r + 1) * (r + 1) {
            assert(is_sqrt_floor(n, r));
        } else {
            assert(n == (r + 1) * (r + 1));
            assert(is_sqrt_floor(n, r + 1)) by (nonlinear_arith)
                requires
                    n == (r + 1) * (r + 1),
                    0 <= r,
            ;
        }
    }
}

pub proof fn lemma_sqrt_floor_unique(n: int, r: int)
    requires
        is_sqrt_floor(n, r),
    ensures
        r == sqrt_floor(n),
{
    assert(0 <= n) by (nonlinear_arith)
        requires
            0 <= r && r * r <= n,
    ;
    lemma_sqrt_floor_exists(n);
    let s = sqrt_floor(n);
    if r < s {
        assert((r + 1) * (r + 1) <= s * s) by (nonlinear_arith)
            requires
                0 <= r && r < s,
        ;
    }
    if s < r {
        assert((s + 1) * (s + 1) <= r * r) by (nonlinear_arith)
            requires
                0 <= s && s < r,
        ;
    }
}

/// A squared norm is never negative.
pub proof fn lemma_dot_self_nonneg(a: Seq<int>)
    ensures
        dot(a, a) >= 0,
    decreases a.len(),
{
    if a.len() > 0 {
        lemma_dot_self_nonneg(a.drop_last());
        assert(a.last() * a.last() >= 0) by (nonlinear_arith);
    }
}

/// A vector with a vanishing norm has a vanishing dot product with
/// every vector.
pub proof fn lemma_dot_self_zero(a: Seq<int>, b: Seq<int>)
    requires
        a.len() == b.len(),
        dot(a, a) == 0,
    ensures
        dot(a, b) == 0,
    decreases a.len(),
{
    if a.len() > 0 {
        lemma_dot_self_nonneg(a.drop_last());
        assert(a.last() * a.last() >= 0) by (nonlinear_arith);
        assert(a.last() * a.last() == 0);
        assert(a.last() == 0) by (nonlinear_arith)
            requires
                a.last() * a.last() == 0,
        ;
        lemma_dot_self_zero(a.drop_last(), b.drop_last());
    }
}

/// The dot product does not depend on the order of its arguments.
pub proof fn lemma_dot_symmetric(a: Seq<int>, b: Seq<int>)
    ensures
        dot(a, b) == dot(b, a),
    decreases a.len(),
{
    if a.len() > 0 && b.len() > 0 {
        lemma_dot_symmetric(a.drop_last(), b.drop_last());
    }
}

/// Cosine similarity is symmetric in its two arguments.
pub proof fn lemma_cosine_symmetric(a: Seq<int>, b: Seq<int>)
    ensures
        spec_cosine(a, b) == spec_cosine(b, a),
{
    lemma_dot_symmetric(a, b);
    let s = SCALE as int;
    assert(dot(a, a) * dot(b, b) * s * s == dot(b, b) * dot(a, a) * s * s) by (nonlinear_arith);
}

/// A vector that is not everywhere zero has a positive squared norm.
pub proof fn lemma_dot_self_pos(a: Seq<int>, i: int)
    requires
        0 <= i < a.len(),
        a[i] != 0,
    ensures
        dot(a, a) >= 1,
    decreases a.len(),
{
    lemma_dot_self_nonneg(a.drop_last());
    if i == a.len() - 1 {
        assert(a.last() * a.last() >= 1) by (nonlinear_arith)
            requires
                a.last() != 0,
        ;
    } else {
        lemma_dot_self_pos(a.drop_last(), i);
        assert(a.last() * a.last() >= 0) by (nonlinear_arith);
    }
}

/// The cosine similarity of a non-zero vector with itself is exactly
/// `SCALE`, the fixed-point representation of 1.
pub proof fn lemma_cosine_self(a: Seq<int>, i: int)
    requires
        0 <= i < a.len(),
        a[i] != 0,
    ensures
        spec_cosine(a, a) == SCALE as int,
{
    lemma_dot_self_pos(a, i);
    let n = dot(a, a);
    let s = SCALE as int;
    assert(is_sqrt_floor(n * n * s * s, n * s)) by (nonlinear_arith)
        requires
            n >= 1 && s >= 1,
    ;
    lemma_sqrt_floor_unique(n * n * s * s, n * s);
    assert(n * s * s == s * (n * s)) by (nonlinear_arith);
    lemma_div_multiples_vanish(s, n * s);
    assert(vstd::math::abs(n) == n);
    assert(spec_cosine(a, a) == vstd::math::min(s, s));
}

/// The dot product of two vectors whose elements are all non-negative
/// is non-negative.
pub proof fn lemma_dot_nonneg(a: Seq<int>, b: Seq<int>)
    requires
        forall|i: int| 0 <= i < a.len() ==> #[trigger] a[i] >= 0,
        forall|i: int| 0 <= i < b.len() ==> #[trigger] b[i] >= 0,
    ensures
        dot(a, b) >= 0,
    decreases a.len(),
{
    if a.len() > 0 && b.len() > 0 {
        lemma_dot_nonneg(a.drop_last(), b.drop_last());
        assert(a.last() * b.last() >= 0) by (nonlinear_arith)
            requires
                a.last() >= 0 && b.last() >= 0,
        ;
    }
}

proof fn lemma_dot_step(a: Seq<int>, b: Seq<int>, i: int)
    requires
        a.len() == b.len(),
        0 <= i < a.len(),
    ensures
        dot(a.take(i + 1), b.take(i + 1)) == dot(a.take(i), b.take(i)) + a[i] * b[i],
{
    assert(a.take(i + 1).drop_last() =~= a.take(i));
    assert(b.take(i + 1).drop_last() =~= b.take(i));
}

/// 2^61; `isqrt` accepts arguments below its square.
const ISQRT_BOUND: u128 = 2305843009213693952;

fn isqrt(n: u128) -> (r: u64)
    requires
        n < (ISQRT_BOUND as int) * (ISQRT_BOUND as int),
    ensures
        is_sqrt_floor(n as int, r as int),
{
    let mut lo: u128 = 0;
    let mut hi: u128 = ISQRT_BOUND;
    while lo + 1 < hi
        invariant
            lo < hi <= ISQRT_BOUND,
            lo * lo <= n,
            n < hi * hi,
        decreases hi - lo,
    {
        let mid = lo + (hi - lo) / 2;
        assert(lo < mid < hi);
        assert(mid * mid <= u128::MAX) by (nonlinear_arith)
            requires
                mid <= ISQRT_BOUND as int && (ISQRT_BOUND as int) * (ISQRT_BOUND as int)
                    <= u128::MAX as int,
        ;
        if mid * mid <= n {
            lo = mid;
        } else {
            hi = mid;
        }
    }
    assert(hi == lo + 1);
    assert(lo < ISQRT_BOUND);
    lo as u64
}

/// The cosine similarity of two equally long integer vectors, as an exact
/// fixed-point number of parts per million in `[-SCALE, SCALE]`; exactly 0
/// whenever the dot product is 0.
pub fn cosine_similarity(a: &Vec<i64>, b: &Vec<i64>) -> (r: i64)
    requires
        a@.len() == b@.len(),
        a@.len() <= MAX_DIMENSIONS,
        forall|i: int|
            0 <= i < a@.len() ==> -(MAX_MAGNITUDE as int) <= #[trigger] a@[i] <= MAX_MAGNITUDE as int,
        forall|i: int|
            0 <= i < b@.len() ==> -(MAX_MAGNITUDE as int) <= #[trigger] b@[i] <= MAX_MAGNITUDE as int,
    ensures
        r as int == spec_cosine(int_view(a@), int_view(b@)),
        dot(int_view(a@), int_view(b@)) == 0 ==> r == 0,
        -(SCALE as int) <= r as int <= SCALE as int,
{
    let ghost av = int_view(a@);
    let ghost bv = int_view(b@);
    let n = a.len();
    let mut i: usize = 0;
    let mut dp: i64 = 0;
    let mut na: i64 = 0;
    let mut nb: i64 = 0;
    proof {
        assert(av.take(0) =~= Seq::<int>::empty());
        assert(bv.take(0) =~= Seq::<int>::empty());
    }
    while i < n
        invariant
            i <= n,
            n == a@.len() == b@.len(),
            n <= MAX_DIMENSIONS,
            av == int_view(a@),
            bv == int_view(b@),
            forall|j: int|
                0 <= j < a@.len() ==> -(MAX_MAGNITUDE as int) <= #[trigger] a@[j] <= MAX_MAGNITUDE as int,
            forall|j: int|
                0 <= j < b@.len() ==> -(MAX_MAGNITUDE as int) <= #[trigger] b@[j] <= MAX_MAGNITUDE as int,
            dp as int == dot(av.take(i as int), bv.take(i as int)),
            na as int == dot(av.take(i as int), av.take(i as int)),
            nb as int == dot(bv.take(i as int), bv.take(i as int)),
            -(i as int) * (MAX_MAGNITUDE as int) * (MAX_MAGNITUDE as int) <= dp as int,
            dp as int <= (i as int) * (MAX_MAGNITUDE as int) * (MAX_MAGNITUDE as int),
            0 <= na as int <= (i as int) * (MAX_MAGNITUDE as int) * (MAX_MAGNITUDE as int),
            0 <= nb as int <= (i as int) * (MAX_MAGNITUDE as int) * (MAX_MAGNITUDE as int),
        decreases n - i,
    {
        let x = a[i];
        let y = b[i];
        proof {
            lemma_dot_step(av, bv, i as int);
            lemma_dot_step(av, av, i as int);
            lemma_dot_step(bv, bv, i as int);
            let m = MAX_MAGNITUDE as int;
            assert(-(m * m) <= x as int * (y as int) <= m * m) by (nonlinear_arith)
                requires
                    -m <= x as int <= m && -m <= y as int <= m && 0 < m,
            ;
            assert(0 <= x as int * (x as int) <= m * m) by (nonlinear_arith)
                requires
                    -m <= x as int <= m && 0 < m,
            ;
            assert(0 <= y as int * (y as int) <= m * m) by (nonlinear_arith)
                requires
                    -m <= y as int <= m && 0 < m,
            ;
            assert((i as int) * m * m + m * m == (i as int + 1) * m * m) by (nonlinear_arith);
            assert((i as int + 1) * m * m <= (MAX_DIMENSIONS as int) * m * m) by (nonlinear_arith)
                requires
                    i as int + 1 <= MAX_DIMENSIONS as int && 0 < m,
            ;
        }
        dp = dp + x * y;
        na = na + x * x;
        nb = nb + y * y;
        i = i + 1;
    }
    proof {
        assert(av.take(n as int) =~= av);
        assert(bv.take(n as int) =~= bv);
    }
    if dp == 0 {
        return 0;
    }
    proof {
        if na == 0 {
            lemma_dot_self_zero(av, bv);
        }
        if nb == 0 {
            lemma_dot_symmetric(av, bv);
            lemma_dot_self_zero(bv, av);
        }
    }
    let du: u128 = if dp > 0 {
        dp as u128
    } else {
        (-dp) as u128
    };
    let s: u128 = SCALE as u128;
    proof {
        let lim: int = (MAX_DIMENSIONS as int) * (MAX_MAGNITUDE as int) * (MAX_MAGNITUDE as int);
        assert(lim == 1000000000000);
        assert(lim * lim * (SCALE as int) * (SCALE as int) < (ISQRT_BOUND as int) * (
        ISQRT_BOUND as int));
        assert(na as int * (nb as int) <= lim * lim) by (nonlinear_arith)
            requires
                1 <= na as int <= lim && 1 <= nb as int <= lim,
        ;
        assert(na as int * (nb as int) * (SCALE as int) * (SCALE as int) <= lim * lim * (SCALE as int) * (
        SCALE as int)) by (nonlinear_arith)
            requires
                0 <= na as int * (nb as int) <= lim * lim && 0 < SCALE as int,
        ;
    }
    let prod: u128 = (na as u128) * (nb as u128) * s * s;
    let den: u64 = isqrt(prod);
    proof {
        assert((SCALE as int) * (SCALE as int) <= prod as int) by (nonlinear_arith)
            requires
                1 <= na as int && 1 <= nb as int && 0 < SCALE as int && prod as int == na as int * (
                nb as int) * (SCALE as int) * (SCALE as int),
        ;
        assert(den as int >= SCALE as int) by (nonlinear_arith)
            requires
                is_sqrt_floor(prod as int, den as int) && (SCALE as int) * (SCALE as int)
                    <= prod as int && 0 < SCALE as int,
        ;
        lemma_sqrt_floor_unique(prod as int, den as int);
        let lim: int = (MAX_DIMENSIONS as int) * (MAX_MAGNITUDE as int) * (MAX_MAGNITUDE as int);
        assert(du as int * (SCALE as int) * (SCALE as int) <= lim * (SCALE as int) * (SCALE as int))
            by (nonlinear_arith)
            requires
                0 <= du as int <= lim && 0 < SCALE as int,
        ;
        assert(lim * (SCALE as int) * (SCALE as int) <= u128::MAX);
    }
    let q: u128 = du * s * s / (den as u128);
    let mag: i64 = if q >= s {
        SCALE as i64
    } else {
        q as i64
    };
    proof {
        let dv = dot(av, bv);
        assert(vstd::math::abs(dv) == du as int);
        assert(mag as int == vstd::math::min(
            SCALE as int,
            (du as int) * (SCALE as int) * (SCALE as int) / (den as int),
        ));
    }
    if dp > 0 {
        mag
    } else {
        -mag
    }
}

} // verus!
