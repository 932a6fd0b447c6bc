use vstd::prelude::*;

verus! {

/// The largest natural number whose square does not exceed `n`.
pub open spec fn spec_isqrt(n: nat) -> nat
    decreases n,
{
    if n == 0 {
        0
    } else {
        let r = spec_isqrt((n - 1) as nat);
        if (r + 1) * (r + 1) <= n {
            r + 1
        } else {
            r
        }
    }
}

/// `spec_isqrt(n)` is the floor of the square root of `n`.
pub proof fn lemma_isqrt_bounds(n: nat)
    ensures
        spec_isqrt(n) * spec_isqrt(n) <= n,
        n < (spec_isqrt(n) + 1) * (spec_isqrt(n) + 1),
    decreases n,
{
    if n > 0 {
        lemma_isqrt_bounds((n - 1) as nat);
        let r = spec_isqrt((n - 1) as nat);
        let s = spec_isqrt(n);
        if (r + 1) * (r + 1) <= n {
            assert(s == r + 1);
            assert(s * s == (r + 1) * (r + 1));
            assert((r + 1) * (r + 1) < (s + 1) * (s + 1)) by (nonlinear_arith)
                requires
                    s == r + 1,
            ;
        } else {
            assert(s == r);
            assert(s * s == r * r);
            assert((s + 1) * (s + 1) == (r + 1) * (r + 1));
        }
    } else {
        assert(spec_isqrt(n) == 0);
        assert(0 * 0 == 0 && (0 + 1) * (0 + 1) == 1) by (nonlinear_arith);
    }
}

/// Squaring is monotonic on the naturals.
pub proof fn lemma_square_monotonic(a: int, b: int)
    requires
        0 <= a <= b,
    ensures
        a * a <= b * b,
{
    assert(a * a <= b * b) by (nonlinear_arith)
        requires
            0 <= a <= b,
    ;
}

/// Only one natural number `r` satisfies `r * r <= n < (r + 1) * (r + 1)`.
pub proof fn lemma_isqrt_unique(n: nat, r: nat)
    requires
        r * r <= n,
        n < (r + 1) * (r + 1),
    ensures
        r == spec_isqrt(n),
{
    lemma_isqrt_bounds(n);
    let s = spec_isqrt(n);
    if r < s {
        lemma_square_monotonic(r as int + 1, s as int);
    } else if s < r {
        lemma_square_monotonic(s as int + 1, r as int);
    }
}

/// A square of a number of size at most `m` lies between 0 and `m * m`.
pub proof fn lemma_square_bound(a: int, m: int)
    requires
        -m <= a <= m,
    ensures
        0 <= a * a <= m * m,
{
    assert(0 <= a * a <= m * m) by (nonlinear_arith)
        requires
            -m <= a <= m,
    ;
}

/// A product of numbers of sizes at most `m` and `n` has size at most `m * n`.
pub proof fn lemma_product_bound(a: int, b: int, m: int, n: int)
    requires
        -m <= a <= m,
        -n <= b <= n,
    ensures
        -(m * n) <= a * b <= m * n,
{
    assert(-(m * n) <= a * b <= m * n) by (nonlinear_arith)
        requires
            -m <= a <= m,
            -n <= b <= n,
    ;
}

/// The quotient of `n` by a positive `d`, rounded toward zero.
pub open spec fn trunc_div(n: int, d: int) -> int {
    if n >= 0 {
        n / d
    } else {
        -((-n) / d)
    }
}

/// The size of a rounded quotient never exceeds that of its numerator.
pub proof fn lemma_trunc_div_bound(n: int, d: int)
    requires
        d > 0,
    ensures
        n >= 0 ==> 0 <= trunc_div(n, d) <= n,
        n <= 0 ==> n <= trunc_div(n, d) <= 0,
{
    if n >= 0 {
        assert(0 <= n / d <= n) by (nonlinear_arith)
            requires
                n >= 0,
                d > 0,
        ;
    } else {
        let m = -n;
        assert(0 <= m / d <= m) by (nonlinear_arith)
            requires
                m >= 0,
                d > 0,
        ;
    }
}

/// Division that rounds toward zero.
pub fn div_toward_zero(n: i128, d: i128) -> (r: i128)
    requires
        d > 0,
        n > i128::MIN,
    ensures
        r == trunc_div(n as int, d as int),
{
    proof {
        lemma_trunc_div_bound(n as int, d as int);
    }
    if n >= 0 {
        n / d
    } else {
        -((-n) / d)
    }
}

/// A quotient of naturals is below a bound exactly when the numerator is
/// below the bound times the denominator.
pub proof fn lemma_div_below(a: int, b: int, k: int)
    requires
        a >= 0,
        b > 0,
    ensures
        a / b < k <==> a < k * b,
{
    assert(a / b < k <==> a < k * b) by (nonlinear_arith)
        requires
            a >= 0,
            b > 0,
    ;
}

/// The root of `n` is below a positive bound exactly when `n` is below the
/// square of the bound.
pub proof fn lemma_isqrt_below(n: nat, e: int)
    requires
        e > 0,
    ensures
        spec_isqrt(n) < e <==> n < e * e,
{
    lemma_isqrt_bounds(n);
    let r = spec_isqrt(n) as int;
    if r < e {
        lemma_square_monotonic(r + 1, e);
    } else {
        lemma_square_monotonic(e, r);
    }
}

/// Lagrange's identity in the plane: the squares of the cross product and
/// of the scalar product of two vectors add up to the product of their
/// squared lengths.
pub proof fn lemma_lagrange(a: int, b: int, c: int, d: int)
    ensures
        (a * d - b * c) * (a * d - b * c) + (a * c + b * d) * (a * c + b * d) == (a * a + b * b)
            * (c * c + d * d),
        (a * c + b * d) * (a * c + b * d) >= 0,
{
    let p = a * d;
    let q = b * c;
    let r = a * c;
    let s = b * d;
    assert(p * q == r * s) by (nonlinear_arith)
        requires
            p == a * d,
            q == b * c,
            r == a * c,
            s == b * d,
    ;
    assert((p - q) * (p - q) == p * p - 2 * (p * q) + q * q) by (nonlinear_arith);
    assert((r + s) * (r + s) == r * r + 2 * (r * s) + s * s) by (nonlinear_arith);
    assert(p * p == (a * a) * (d * d)) by (nonlinear_arith)
        requires
            p == a * d,
    ;
    assert(q * q == (b * b) * (c * c)) by (nonlinear_arith)
        requires
            q == b * c,
    ;
    assert(r * r == (a * a) * (c * c)) by (nonlinear_arith)
        requires
            r == a * c,
    ;
    assert(s * s == (b * b) * (d * d)) by (nonlinear_arith)
        requires
            s == b * d,
    ;
    let aa = a * a;
    let bb = b * b;
    let cc = c * c;
    let dd = d * d;
    assert((aa + bb) * (cc + dd) == aa * cc + aa * dd + bb * cc + bb * dd) by (nonlinear_arith);
    assert((r + s) * (r + s) >= 0) by (nonlinear_arith);
}

/// `v` brought into the range of a sample.
pub open spec fn clamp64(v: int) -> i64 {
    if v < i64::MIN {
        i64::MIN
    } else if v > i64::MAX {
        i64::MAX
    } else {
        v as i64
    }
}

/// `-a`, or the largest sample there is where that is out of range.
pub fn sat_neg(a: i64) -> (r: i64)
    ensures
        r == clamp64(-(a as int)),
{
    if a == i64::MIN {
        i64::MAX
    } else {
        -a
    }
}

/// `a - b`, or the nearest sample there is where that is out of range.
pub fn sat_sub(a: i64, b: i64) -> (r: i64)
    ensures
        r == clamp64(a as int - b as int),
{
    let d: i128 = a as i128 - b as i128;
    if d < i64::MIN as i128 {
        i64::MIN
    } else if d > i64::MAX as i128 {
        i64::MAX
    } else {
        d as i64
    }
}

/// Floor of the square root.
pub fn isqrt(n: u128) -> (r: u64)
    ensures
        r == spec_isqrt(n as nat),
        r * r <= n,
        n < (r + 1) * (r + 1),
{
    let mut lo: u128 = 0;
    let mut hi: u128 = 0x1_0000_0000_0000_0000;
    proof {
        assert(n < 0x1_0000_0000_0000_0000 * 0x1_0000_0000_0000_0000) by (nonlinear_arith)
            requires
                n <= u128::MAX,
        ;
    }
    while hi - lo > 1
        invariant
            lo < hi <= 0x1_0000_0000_0000_0000,
            lo * lo <= n,
            n < hi * hi,
        decreases hi - lo,
    {
        let mid: u128 = lo + (hi - lo) / 2;
        proof {
            lemma_square_bound(mid as int, 0xffff_ffff_ffff_ffff);
        }
        if mid * mid <= n {
            lo = mid;
        } else {
            hi = mid;
        }
    }
    proof {
        lemma_isqrt_unique(n as nat, lo as nat);
    }
    lo as u64
}

} // verus!
