//! Cosine similarity of fixed-point vectors, in exact integer arithmetic.
//!
//! A vector component is a number of ten-thousandths. A similarity is a
//! score between `-SCORE_ONE` and `SCORE_ONE`: the cosine of the angle
//! between two vectors, in ten-thousandths, rounded toward zero.

use vstd::prelude::*;
use vstd::arithmetic::div_mod::{lemma_div_is_ordered, lemma_div_multiples_vanish};

verus! {

/// The score of two vectors that point the same way.
pub const SCORE_ONE: i32 = 10_000;

/// The largest magnitude of a vector component.
pub const MAX_COMPONENT: i32 = 500_000;

/// The largest number of components of a vector.
pub const MAX_DIM: usize = 4096;

/// The inner product of two vectors of one length; 0 where the lengths differ.
pub open spec fn dot(a: Seq<i32>, b: Seq<i32>) -> int
    decreases a.len(),
{
    if a.len() == 0 || a.len() != b.len() {
        0
    } else {
        dot(a.drop_last(), b.drop_last()) + a.last() * b.last()
    }
}

/// The squared length of a vector.
pub open spec fn norm_sq(a: Seq<i32>) -> int {
    dot(a, a)
}

/// A vector that the index accepts: not too long, no component too large.
pub open spec fn bounded(a: Seq<i32>) -> bool {
    &&& a.len() <= MAX_DIM
    &&& forall|i: int| 0 <= i < a.len() ==> -MAX_COMPONENT <= #[trigger] a[i] <= MAX_COMPONENT
}

/// The integer square root: the largest `r` with `r * r <= n`.
pub open spec fn int_sqrt(n: nat) -> nat
    decreases n,
{
    if n == 0 {
        0
    } else {
        let r = int_sqrt((n - 1) as nat);
        if (r + 1) * (r + 1) <= n {
            r + 1
        } else {
            r
        }
    }
}

/// The cosine of the angle between `a` and `b` in ten-thousandths, rounded
/// toward zero; 0 where the lengths differ or one of them is the zero vector.
pub open spec fn cosine_score(a: Seq<i32>, b: Seq<i32>) -> int {
    let d = dot(a, b);
    let den = norm_sq(a) * norm_sq(b);
    if a.len() != b.len() || norm_sq(a) == 0 || norm_sq(b) == 0 {
        0
    } else {
        let q = int_sqrt(((SCORE_ONE * SCORE_ONE * (d * d)) / den) as nat) as int;
        if d < 0 {
            -q
        } else {
            q
        }
    }
}

/// `int_sqrt(n)` is the largest number whose square does not exceed `n`.
pub proof fn lemma_int_sqrt_bounds(n: nat)
    ensures
        int_sqrt(n) * int_sqrt(n) <= n,
        n < (int_sqrt(n) + 1) * (int_sqrt(n) + 1),
    decreases n,
{
    if n > 0 {
        lemma_int_sqrt_bounds((n - 1) as nat);
        let r = int_sqrt((n - 1) as nat) as int;
        let m = int_sqrt(n) as int;
        if (r + 1) * (r + 1) <= n {
            assert(m == r + 1);
            assert((r + 1) * (r + 1) < (m + 1) * (m + 1)) by (nonlinear_arith)
                requires
                    m == r + 1,
                    r >= 0,
            ;
        } else {
            assert(m == r);
        }
        assert(m * m <= n);
        assert(n < (m + 1) * (m + 1));
    } else {
        assert(int_sqrt(n) == 0);
        assert(0 * 0 == 0 && (0 + 1) * (0 + 1) == 1) by (nonlinear_arith);
    }
}

/// Only one number lies with its square at or below `n` and its successor's
/// square above `n`.
pub proof fn lemma_int_sqrt_unique(n: nat, q: nat)
    requires
        q * q <= n,
        n < (q + 1) * (q + 1),
    ensures
        q == int_sqrt(n),
{
    lemma_int_sqrt_bounds(n);
    let r = int_sqrt(n);
    if q < r {
        assert((q + 1) * (q + 1) <= r * r) by (nonlinear_arith)
            requires
                q + 1 <= r,
        ;
    }
    if r < q {
        assert((r + 1) * (r + 1) <= q * q) by (nonlinear_arith)
            requires
                r + 1 <= q,
        ;
    }
}

/// The integer square root of a machine number.
pub fn isqrt(n: u64) -> (r: u64)
    ensures
        r == int_sqrt(n as nat),
{
    let mut lo: u64 = 0;
    let mut hi: u64 = 4294967296;
    assert(4294967296u64 * 4294967296u64 > n) by (nonlinear_arith);
    while hi - lo > 1
        invariant
            lo < hi <= 4294967296,
            lo * lo <= n,
            n < hi * hi,
        decreases hi - lo,
    {
        let mid: u64 = lo + (hi - lo) / 2;
        assert(mid * mid <= 4294967295u64 * 4294967295u64) by (nonlinear_arith)
            requires
                mid <= 4294967295u64,
        ;
        if mid * mid <= n {
            lo = mid;
        } else {
            hi = mid;
        }
    }
    proof {
        lemma_int_sqrt_unique(n as nat, lo as nat);
    }
    lo
}

proof fn lemma_dot_step(a: Seq<i32>, b: Seq<i32>, i: int)
    requires
        a.len() == b.len(),
        0 <= i < a.len(),
    ensures
        dot(a.take(i + 1), b.take(i + 1)) == dot(a.take(i), b.take(i)) + a[i] * b[i],
{
    assert(a.take(i + 1).drop_last() =~= a.take(i));
    assert(b.take(i + 1).drop_last() =~= b.take(i));
}

proof fn lemma_product_bound(x: int, y: int, m: int)
    requires
        -m <= x <= m,
        -m <= y <= m,
    ensures
        -(m * m) <= x * y <= m * m,
{
    assert(-(m * m) <= x * y <= m * m) by (nonlinear_arith)
        requires
            -m <= x <= m,
            -m <= y <= m,
    ;
}

/// Cauchy and Schwarz: the squared inner product is at most the product of
/// the squared lengths.
pub proof fn lemma_dot_squared(a: Seq<i32>, b: Seq<i32>)
    requires
        a.len() == b.len(),
    ensures
        dot(a, b) * dot(a, b) <= norm_sq(a) * norm_sq(b),
        norm_sq(a) >= 0,
        norm_sq(b) >= 0,
    decreases a.len(),
{
    if a.len() == 0 {
    } else {
        let a0 = a.drop_last();
        let b0 = b.drop_last();
        lemma_dot_squared(a0, b0);
        let d = dot(a0, b0);
        let p = norm_sq(a0);
        let q = norm_sq(b0);
        let x = a.last() as int;
        let y = b.last() as int;
        lemma_step_squared(d, p, q, x, y);
        assert(x * x >= 0 && y * y >= 0) by (nonlinear_arith);
    }
}

proof fn lemma_step_squared(d: int, p: int, q: int, x: int, y: int)
    requires
        d * d <= p * q,
        p >= 0,
        q >= 0,
    ensures
        (d + x * y) * (d + x * y) <= (p + x * x) * (q + y * y),
{
    let u = d * (x * y);
    let s = p * (y * y);
    let t = q * (x * x);
    let k = (x * y) * (x * y);
    assert(k >= 0) by (nonlinear_arith)
        requires
            k == (x * y) * (x * y),
    ;
    assert((d * d) * k <= (p * q) * k) by (nonlinear_arith)
        requires
            d * d <= p * q,
            k >= 0,
    ;
    assert(u * u == (d * d) * k) by (nonlinear_arith)
        requires
            u == d * (x * y),
            k == (x * y) * (x * y),
    ;
    assert(s * t == (p * q) * k) by (nonlinear_arith)
        requires
            s == p * (y * y),
            t == q * (x * x),
            k == (x * y) * (x * y),
    ;
    assert(s >= 0 && t >= 0) by (nonlinear_arith)
        requires
            s == p * (y * y),
            t == q * (x * x),
            p >= 0,
            q >= 0,
    ;
    assert(4 * (s * t) <= (s + t) * (s + t)) by (nonlinear_arith);
    assert(2 * u <= s + t) by (nonlinear_arith)
        requires
            4 * (u * u) <= (s + t) * (s + t),
            s + t >= 0,
    ;
    assert((d + x * y) * (d + x * y) == d * d + 2 * u + k) by (nonlinear_arith)
        requires
            u == d * (x * y),
            k == (x * y) * (x * y),
    ;
    assert((p + x * x) * (q + y * y) == p * q + s + t + k) by (nonlinear_arith)
        requires
            s == p * (y * y),
            t == q * (x * x),
            k == (x * y) * (x * y),
    ;
}

/// A vector has squared length 0 only if it has no other component than 0.
pub proof fn lemma_norm_zero(a: Seq<i32>)
    ensures
        norm_sq(a) >= 0,
        norm_sq(a) == 0 <==> (forall|i: int| 0 <= i < a.len() ==> a[i] == 0),
    decreases a.len(),
{
    if a.len() > 0 {
        let a0 = a.drop_last();
        lemma_norm_zero(a0);
        let x = a.last() as int;
        assert(x * x >= 0 && (x * x == 0 <==> x == 0)) by (nonlinear_arith);
        if norm_sq(a) == 0 {
            assert forall|i: int| 0 <= i < a.len() implies a[i] == 0 by {
                if i < a.len() - 1 {
                    assert(a0[i] == a[i]);
                }
            }
        } else {
            if forall|i: int| 0 <= i < a.len() ==> a[i] == 0 {
                assert forall|i: int| 0 <= i < a0.len() implies a0[i] == 0 by {
                    assert(a0[i] == a[i]);
                }
                assert(false);
            }
        }
    }
}

/// A score never leaves the range from `-SCORE_ONE` to `SCORE_ONE`.
pub proof fn lemma_score_range(a: Seq<i32>, b: Seq<i32>)
    ensures
        -SCORE_ONE <= cosine_score(a, b) <= SCORE_ONE,
{
    if a.len() == b.len() && norm_sq(a) != 0 && norm_sq(b) != 0 {
        lemma_dot_squared(a, b);
        let d = dot(a, b);
        let den = norm_sq(a) * norm_sq(b);
        let one = SCORE_ONE * SCORE_ONE;
        assert(den > 0) by (nonlinear_arith)
            requires
                den == norm_sq(a) * norm_sq(b),
                norm_sq(a) > 0,
                norm_sq(b) > 0,
        ;
        assert(d * d >= 0) by (nonlinear_arith);
        assert(0 <= one * (d * d) <= one * den) by (nonlinear_arith)
            requires
                0 <= d * d <= den,
                one == 100_000_000,
        ;
        lemma_div_is_ordered(one * (d * d), one * den, den);
        lemma_div_multiples_vanish(one, den);
        lemma_div_is_ordered(0, one * (d * d), den);
        let q = (one * (d * d)) / den;
        assert(0 <= q <= one);
        lemma_int_sqrt_bounds(q as nat);
        let r = int_sqrt(q as nat);
        if r > SCORE_ONE {
            assert(r * r >= 10_001 * 10_001) by (nonlinear_arith)
                requires
                    r >= 10_001,
            ;
        }
    }
}

/// A vector that is not the zero vector has the full score with itself.
pub proof fn lemma_self_score(a: Seq<i32>)
    requires
        norm_sq(a) != 0,
    ensures
        cosine_score(a, a) == SCORE_ONE,
{
    lemma_norm_zero(a);
    let n = norm_sq(a);
    let one = (SCORE_ONE * SCORE_ONE) as int;
    assert(n * n > 0) by (nonlinear_arith)
        requires
            n > 0,
    ;
    lemma_div_multiples_vanish(one, n * n);
    assert(one == 100_000_000);
    assert(10_000 * 10_000 == 100_000_000 && 10_001 * 10_001 == 100_020_001) by (nonlinear_arith);
    lemma_int_sqrt_unique(one as nat, SCORE_ONE as nat);
}

/// The similarity score of two vectors.
pub fn cosine(a: &[i32], b: &[i32]) -> (score: i32)
    requires
        bounded(a@),
        bounded(b@),
    ensures
        score == cosine_score(a@, b@),
        -SCORE_ONE <= score <= SCORE_ONE,
{
    proof {
        lemma_score_range(a@, b@);
    }
    if a.len() != b.len() {
        return 0;
    }
    let n = a.len();
    let mut d: i64 = 0;
    let mut na: i64 = 0;
    let mut nb: i64 = 0;
    let mut i: usize = 0;
    while i < n
        invariant
            n == a.len(),
            n == b.len(),
            n <= MAX_DIM,
            bounded(a@),
            bounded(b@),
            i <= n,
            d == dot(a@.take(i as int), b@.take(i as int)),
            na == norm_sq(a@.take(i as int)),
            nb == norm_sq(b@.take(i as int)),
            -(i * 250_000_000_000) <= d <= i * 250_000_000_000,
            0 <= na <= i * 250_000_000_000,
            0 <= nb <= i * 250_000_000_000,
        decreases n - i,
    {
        let x: i64 = a[i] as i64;
        let y: i64 = b[i] as i64;
        proof {
            lemma_dot_step(a@, b@, i as int);
            lemma_dot_step(a@, a@, i as int);
            lemma_dot_step(b@, b@, i as int);
            lemma_product_bound(x as int, y as int, MAX_COMPONENT as int);
            lemma_product_bound(x as int, x as int, MAX_COMPONENT as int);
            lemma_product_bound(y as int, y as int, MAX_COMPONENT as int);
            assert(x * x >= 0 && y * y >= 0) by (nonlinear_arith);
        }
        d = d + x * y;
        na = na + x * x;
        nb = nb + y * y;
        i += 1;
    }
    assert(a@.take(n as int) =~= a@);
    assert(b@.take(n as int) =~= b@);
    if na == 0 || nb == 0 {
        return 0;
    }
    let mag: u128 = if d < 0 {
        (-d) as u128
    } else {
        d as u128
    };
    assert(na <= 1_024_000_000_000_000 && nb <= 1_024_000_000_000_000 && -1_024_000_000_000_000
        <= d <= 1_024_000_000_000_000);
    assert(na * nb <= 1_024_000_000_000_000 * 1_024_000_000_000_000) by (nonlinear_arith)
        requires
            0 <= na <= 1_024_000_000_000_000,
            0 <= nb <= 1_024_000_000_000_000,
    ;
    assert(mag * mag <= 1_024_000_000_000_000 * 1_024_000_000_000_000) by (nonlinear_arith)
        requires
            0 <= mag <= 1_024_000_000_000_000,
    ;
    let den: u128 = (na as u128) * (nb as u128);
    proof {
        lemma_dot_squared(a@, b@);
        assert(mag * mag == d * d) by (nonlinear_arith)
            requires
                mag == d || mag == -d,
        ;
        assert(den > 0) by (nonlinear_arith)
            requires
                den == na * nb,
                na > 0,
                nb > 0,
        ;
        assert(100_000_000 * (mag * mag) <= 100_000_000 * den) by (nonlinear_arith)
            requires
                mag * mag <= den,
        ;
        lemma_div_is_ordered(100_000_000 * (mag * mag), 100_000_000 * den, den as int);
        lemma_div_multiples_vanish(100_000_000, den as int);
    }
    let sq: u128 = mag * mag;
    let q: u128 = (100_000_000u128 * sq) / den;
    let r: u64 = isqrt(q as u64);
    if d < 0 {
        -(r as i32)
    } else {
        r as i32
    }
}

} // verus!
