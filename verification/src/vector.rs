//! The vector scorer.
//!
//! Embeddings are fixed-point vectors: each coordinate is an integer number
//! of millionths, bounded by [`VAL_LIMIT`]. Cosine similarity is computed
//! exactly over the integers and reported in thousandths ([`SIM_SCALE`]), so
//! that a similarity of `1.0` is the value `1000`. The bound and symmetry
//! laws at the end of the module hold for every pair of vectors.

use vstd::prelude::*;
use vstd::arithmetic::div_mod::lemma_div_is_ordered;

verus! {

/// Largest magnitude a vector coordinate may have (one unit = 1e-6).
pub const VAL_LIMIT: i64 = 1_000_000;

/// Largest number of coordinates a vector may have.
pub const MAX_DIM: usize = 100_000;

/// Similarity values are reported in units of 1/SIM_SCALE.
pub const SIM_SCALE: i64 = 1000;

/// A vector the scorer accepts: bounded length and bounded coordinates.
pub open spec fn valid_vector(v: Seq<i64>) -> bool {
    &&& v.len() <= MAX_DIM
    &&& forall|i: int| 0 <= i < v.len() ==> -VAL_LIMIT <= #[trigger] v[i] <= VAL_LIMIT
}

/// Dot product of the first `n` coordinates.
pub open spec fn dot_to(a: Seq<i64>, b: Seq<i64>, n: int) -> int
    decreases n,
{
    if n <= 0 {
        0
    } else {
        dot_to(a, b, n - 1) + a[n - 1] * b[n - 1]
    }
}

/// Dot product of two equal-length vectors.
pub open spec fn dot(a: Seq<i64>, b: Seq<i64>) -> int {
    dot_to(a, b, a.len() as int)
}

/// `r` is the integer square root (rounded down) of `n`.
pub open spec fn is_sqrt_floor(n: int, r: int) -> bool {
    0 <= r && r * r <= n && n < (r + 1) * (r + 1)
}

/// The integer square root, rounded down.
pub closed spec fn sqrt_floor(n: int) -> int {
    choose|r: int| is_sqrt_floor(n, r)
}

/// Every nonnegative integer has an integer square root.
pub proof fn lemma_sqrt_floor_exists(n: int)
    requires
        n >= 0,
    ensures
        is_sqrt_floor(n, sqrt_floor(n)),
    decreases n,
{
    if n == 0 {
        assert(is_sqrt_floor(0, 0));
    } else {
        lemma_sqrt_floor_exists(n - 1);
        let r = sqrt_floor(n - 1);
        if (r + 1) * (r + 1) <= n {
            assert(is_sqrt_floor(n, r + 1)) by (nonlinear_arith)
                requires is_sqrt_floor(n - 1, r) && (r + 1) * (r + 1) <= n;
        } else {
            assert(is_sqrt_floor(n, r));
        }
    }
}

/// The integer square root is unique.
pub proof fn lemma_sqrt_floor_unique(n: int, r1: int, r2: int)
    requires
        is_sqrt_floor(n, r1),
        is_sqrt_floor(n, r2),
    ensures
        r1 == r2,
{
    assert(r1 == r2) by (nonlinear_arith)
        requires is_sqrt_floor(n, r1) && is_sqrt_floor(n, r2);
}

/// Cosine similarity in thousandths, rounded toward zero.
/// Zero when the lengths differ, the vectors are empty, or either norm is
/// zero, matching the degenerate cases the retriever relies on.
pub open spec fn cosine_milli(a: Seq<i64>, b: Seq<i64>) -> int {
    if a.len() != b.len() || a.len() == 0 {
        0
    } else {
        let d = dot(a, b);
        let na = dot(a, a);
        let nb = dot(b, b);
        if na == 0 || nb == 0 {
            0
        } else {
            let s = sqrt_floor(na * nb);
            if d >= 0 {
                (d * SIM_SCALE) / s
            } else {
                -(((-d) * SIM_SCALE) / s)
            }
        }
    }
}

/// Each partial dot product of bounded vectors is bounded by `n * VAL_LIMIT^2`.
proof fn lemma_dot_to_bound(a: Seq<i64>, b: Seq<i64>, n: int)
    requires
        0 <= n <= a.len(),
        n <= b.len(),
        forall|i: int| 0 <= i < a.len() ==> -VAL_LIMIT <= #[trigger] a[i] <= VAL_LIMIT,
        forall|i: int| 0 <= i < b.len() ==> -VAL_LIMIT <= #[trigger] b[i] <= VAL_LIMIT,
    ensures
        -n * (VAL_LIMIT as int * VAL_LIMIT as int) <= dot_to(a, b, n) <= n * (VAL_LIMIT as int * VAL_LIMIT as int),
    decreases n,
{
    if n > 0 {
        lemma_dot_to_bound(a, b, n - 1);
        let l = VAL_LIMIT as int;
        assert(-(l * l) <= a[n - 1] * b[n - 1] <= l * l) by (nonlinear_arith)
            requires -l <= a[n - 1] <= l && -l <= b[n - 1] <= l && l == 1_000_000;
        assert((n - 1) * (l * l) + l * l == n * (l * l)) by (nonlinear_arith);
    }
}

/// The dot product of a vector with itself is nonnegative and grows with `n`.
proof fn lemma_self_dot_nonneg(a: Seq<i64>, n: int)
    requires
        0 <= n <= a.len(),
    ensures
        dot_to(a, a, n) >= 0,
    decreases n,
{
    if n > 0 {
        lemma_self_dot_nonneg(a, n - 1);
        assert(a[n - 1] * a[n - 1] >= 0) by (nonlinear_arith);
    }
}

/// The dot product is symmetric.
proof fn lemma_dot_to_symmetric(a: Seq<i64>, b: Seq<i64>, n: int)
    requires
        0 <= n,
    ensures
        dot_to(a, b, n) == dot_to(b, a, n),
    decreases n,
{
    if n > 0 {
        lemma_dot_to_symmetric(a, b, n - 1);
    }
}

/// Cauchy-Schwarz over the integers: the dot product squared never exceeds
/// the product of the squared norms.
#[verifier::rlimit(50)]
proof fn lemma_cauchy_schwarz(a: Seq<i64>, b: Seq<i64>, n: int)
    requires
        0 <= n <= a.len(),
        n <= b.len(),
    ensures
        dot_to(a, b, n) * dot_to(a, b, n) <= dot_to(a, a, n) * dot_to(b, b, n),
    decreases n,
{
    if n == 0 {
    } else {
        lemma_cauchy_schwarz(a, b, n - 1);
        lemma_self_dot_nonneg(a, n - 1);
        lemma_self_dot_nonneg(b, n - 1);
        let d = dot_to(a, b, n - 1);
        let na = dot_to(a, a, n - 1);
        let nb = dot_to(b, b, n - 1);
        let x = a[n - 1] as int;
        let y = b[n - 1] as int;
        if nb == 0 {
            assert(d == 0) by (nonlinear_arith)
                requires d * d <= na * nb && nb == 0;
            assert((d + x * y) * (d + x * y) <= (na + x * x) * (nb + y * y)) by (nonlinear_arith)
                requires d == 0 && nb == 0 && na >= 0;
        } else {
            // (d*y - nb*x)^2 >= 0 gives the cross-term bound
            assert(na * (y * y) + nb * (x * x) >= 2 * d * (x * y)) by (nonlinear_arith)
                requires
                    nb > 0,
                    na >= 0,
                    d * d <= na * nb,
            ;
            assert((d + x * y) * (d + x * y) == d * d + 2 * d * (x * y) + (x * x) * (y * y))
                by (nonlinear_arith);
            assert((na + x * x) * (nb + y * y) == na * nb + na * (y * y) + nb * (x * x) + (x * x) * (y * y))
                by (nonlinear_arith);
            assert((d + x * y) * (d + x * y) <= (na + x * x) * (nb + y * y));
        }
    }
}

/// An integer whose square is at most `m` is at most `m`'s root.
proof fn lemma_le_sqrt(d: int, m: int, s: int)
    requires
        d >= 0,
        d * d <= m,
        is_sqrt_floor(m, s),
    ensures
        d <= s,
{
    assert(d <= s) by (nonlinear_arith)
        requires d >= 0 && d * d <= m && 0 <= s && m < (s + 1) * (s + 1);
}

/// Integer square root by bisection.
fn isqrt(n: u128) -> (r: u128)
    requires
        n < 1_000_000_000_000_000_000_000_000_000_000_000_000u128,
    ensures
        is_sqrt_floor(n as int, r as int),
{
    if n == 0 {
        return 0;
    }
    let mut lo: u128 = 0;
    let mut hi: u128 = 1_000_000_000_000_000_000u128;
    assert((hi as int) * (hi as int) == 1_000_000_000_000_000_000_000_000_000_000_000_000int) by (nonlinear_arith)
        requires hi == 1_000_000_000_000_000_000u128;
    while lo + 1 < hi
        invariant
            lo < hi,
            hi <= 1_000_000_000_000_000_000u128,
            (lo as int) * (lo as int) <= n as int,
            (n as int) < (hi as int) * (hi as int),
        decreases hi - lo,
    {
        let mid = lo + (hi - lo) / 2;
        assert(lo < mid < hi);
        proof {
            assert((mid as int) * (mid as int) <= 1_000_000_000_000_000_000_000_000_000_000_000_000int)
                by (nonlinear_arith)
                requires 0 < mid <= 1_000_000_000_000_000_000u128;
        }
        if mid * mid <= n {
            lo = mid;
        } else {
            hi = mid;
        }
    }
    assert(is_sqrt_floor(n as int, lo as int));
    lo
}

/// Compute cosine similarity in thousandths.
///
/// The result is exactly [`cosine_milli`] of the two vectors, and always
/// lies in `[-SIM_SCALE, SIM_SCALE]`.
pub fn cosine_similarity(a: &Vec<i64>, b: &Vec<i64>) -> (r: i64)
    requires
        valid_vector(a@),
        valid_vector(b@),
    ensures
        r == cosine_milli(a@, b@),
        -SIM_SCALE <= r <= SIM_SCALE,
{
    proof {
        lemma_cosine_milli_bounded(a@, b@);
    }
    if a.len() != b.len() || a.len() == 0 {
        return 0;
    }
    let ghost l2 = VAL_LIMIT as int * VAL_LIMIT as int;
    proof {
        assert(l2 == 1_000_000_000_000int);
    }
    let n = a.len();
    let mut d: i128 = 0;
    let mut na: i128 = 0;
    let mut nb: i128 = 0;
    for i in 0..n
        invariant
            n == a@.len(),
            n == b@.len(),
            n <= 100_000,
            l2 == 1_000_000_000_000int,
            valid_vector(a@),
            valid_vector(b@),
            d == dot_to(a@, b@, i as int),
            na == dot_to(a@, a@, i as int),
            nb == dot_to(b@, b@, i as int),
            -(i as int) * l2 <= d <= (i as int) * l2,
            0 <= na <= (i as int) * l2,
            0 <= nb <= (i as int) * l2,
    {
        let x = a[i];
        let y = b[i];
        proof {
            let xi = x as int;
            let yi = y as int;
            assert(-l2 <= xi * yi <= l2 && 0 <= xi * xi <= l2 && 0 <= yi * yi <= l2)
                by (nonlinear_arith)
                requires
                    -1_000_000 <= xi <= 1_000_000,
                    -1_000_000 <= yi <= 1_000_000,
                    l2 == 1_000_000_000_000int,
            ;
        }
        d = d + (x as i128) * (y as i128);
        na = na + (x as i128) * (x as i128);
        nb = nb + (y as i128) * (y as i128);
    }
    if na == 0 || nb == 0 {
        return 0;
    }
    proof {
        assert(na * nb <= (100_000int * l2) * (100_000int * l2)) by (nonlinear_arith)
            requires
                0 < na <= 100_000int * l2,
                0 < nb <= 100_000int * l2,
        ;
        assert(na * nb > 0) by (nonlinear_arith)
            requires na > 0 && nb > 0;
    }
    let prod: u128 = (na as u128) * (nb as u128);
    let s = isqrt(prod);
    proof {
        lemma_sqrt_floor_exists(prod as int);
        lemma_sqrt_floor_unique(prod as int, sqrt_floor(prod as int), s as int);
        lemma_cauchy_schwarz(a@, b@, n as int);
        assert(d * d <= prod) by (nonlinear_arith)
            requires d * d <= na * nb && prod == na * nb;
        assert(s > 0) by (nonlinear_arith)
            requires is_sqrt_floor(prod as int, s as int) && prod as int > 0;
    }
    if d >= 0 {
        proof {
            lemma_le_sqrt(d as int, prod as int, s as int);
            lemma_div_is_ordered((d as int) * 1000, (s as int) * 1000, s as int);
            assert(d * 1000 <= s * 1000) by (nonlinear_arith)
                requires d <= s;
            assert((s as int) * 1000 / (s as int) == 1000) by (nonlinear_arith)
                requires s > 0;
        }
        let q: u128 = ((d as u128) * 1000) / s;
        q as i64
    } else {
        proof {
            let m = -(d as int);
            assert(m * m <= prod) by (nonlinear_arith)
                requires d * d <= prod && m == -(d as int);
            lemma_le_sqrt(m, prod as int, s as int);
            lemma_div_is_ordered(m * 1000, (s as int) * 1000, s as int);
            assert(m * 1000 <= s * 1000) by (nonlinear_arith)
                requires m <= s;
            assert((s as int) * 1000 / (s as int) == 1000) by (nonlinear_arith)
                requires s > 0;
        }
        let m: i128 = -d;
        let q: u128 = ((m as u128) * 1000) / s;
        -(q as i64)
    }
}

/// Cosine similarity is bounded: it always lies within one scale unit of
/// zero, i.e. in `[-1.0, 1.0]`.
pub proof fn lemma_cosine_milli_bounded(a: Seq<i64>, b: Seq<i64>)
    ensures
        -SIM_SCALE <= cosine_milli(a, b) <= SIM_SCALE,
{
    if a.len() == b.len() && a.len() > 0 {
        let d = dot(a, b);
        let na = dot(a, a);
        let nb = dot(b, b);
        if na != 0 && nb != 0 {
            lemma_self_dot_nonneg(a, a.len() as int);
            lemma_self_dot_nonneg(b, b.len() as int);
            assert(na * nb > 0) by (nonlinear_arith)
                requires na > 0 && nb > 0;
            lemma_sqrt_floor_exists(na * nb);
            let s = sqrt_floor(na * nb);
            lemma_cauchy_schwarz(a, b, a.len() as int);
            assert(s > 0) by (nonlinear_arith)
                requires is_sqrt_floor(na * nb, s) && na * nb > 0;
            if d >= 0 {
                lemma_le_sqrt(d, na * nb, s);
                assert(d * SIM_SCALE <= s * SIM_SCALE) by (nonlinear_arith)
                    requires d <= s && SIM_SCALE == 1000;
                lemma_div_is_ordered(d * SIM_SCALE, s * SIM_SCALE, s);
                assert(s * SIM_SCALE / s == SIM_SCALE) by (nonlinear_arith)
                    requires s > 0 && SIM_SCALE == 1000;
                assert(d * SIM_SCALE >= 0) by (nonlinear_arith)
                    requires d >= 0 && SIM_SCALE == 1000;
                lemma_div_is_ordered(0, d * SIM_SCALE, s);
            } else {
                let m = -d;
                assert(m * m <= na * nb) by (nonlinear_arith)
                    requires d * d <= na * nb && m == -d;
                lemma_le_sqrt(m, na * nb, s);
                assert(m * SIM_SCALE <= s * SIM_SCALE) by (nonlinear_arith)
                    requires m <= s && SIM_SCALE == 1000;
                lemma_div_is_ordered(m * SIM_SCALE, s * SIM_SCALE, s);
                assert(s * SIM_SCALE / s == SIM_SCALE) by (nonlinear_arith)
                    requires s > 0 && SIM_SCALE == 1000;
                assert(m * SIM_SCALE >= 0) by (nonlinear_arith)
                    requires m >= 0 && SIM_SCALE == 1000;
                lemma_div_is_ordered(0, m * SIM_SCALE, s);
            }
        }
    }
}

/// Cosine similarity is symmetric.
pub proof fn lemma_cosine_milli_symmetric(a: Seq<i64>, b: Seq<i64>)
    ensures
        cosine_milli(a, b) == cosine_milli(b, a),
{
    if a.len() == b.len() {
        lemma_dot_to_symmetric(a, b, a.len() as int);
    }
}

/// A vector's similarity with itself is exactly 1.0 (i.e. `SIM_SCALE`)
/// whenever the vector has a nonzero norm.
pub proof fn lemma_cosine_milli_self(a: Seq<i64>)
    requires
        a.len() > 0,
        dot(a, a) != 0,
    ensures
        cosine_milli(a, a) == SIM_SCALE,
{
    let na = dot(a, a);
    lemma_self_dot_nonneg(a, a.len() as int);
    assert(is_sqrt_floor(na * na, na)) by (nonlinear_arith)
        requires na > 0;
    lemma_sqrt_floor_exists(na * na);
    lemma_sqrt_floor_unique(na * na, sqrt_floor(na * na), na);
    assert(na * SIM_SCALE / na == SIM_SCALE) by (nonlinear_arith)
        requires na > 0 && SIM_SCALE == 1000;
}

} // verus!
