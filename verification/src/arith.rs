//! Integer division with explicit rounding direction.

use vstd::prelude::*;

verus! {

/// Quotient of `n` by a positive `d`, rounded toward negative infinity.
pub open spec fn floor_div(n: int, d: int) -> int {
    n / d
}

/// Quotient of `n` by a positive `d`, rounded toward positive infinity.
pub open spec fn ceil_div(n: int, d: int) -> int {
    -((-n) / d)
}

/// `floor_div(n, d)` is the one integer `q` with `q * d <= n < (q + 1) * d`.
pub proof fn lemma_floor_div_bounds(n: int, d: int)
    requires
        d > 0,
    ensures
        floor_div(n, d) * d <= n < (floor_div(n, d) + 1) * d,
{
    let q = n / d;
    assert(q * d <= n < (q + 1) * d) by (nonlinear_arith)
        requires
            d > 0,
            q == n / d,
    ;
}

/// A multiple `x * d` stays at or below `n` exactly when `x` is at most the floor quotient.
pub proof fn lemma_floor_div_greatest(n: int, d: int, x: int)
    requires
        d > 0,
    ensures
        x * d <= n <==> x <= floor_div(n, d),
{
    lemma_floor_div_bounds(n, d);
    let q = floor_div(n, d);
    if x <= q {
        assert(x * d <= q * d) by (nonlinear_arith)
            requires
                x <= q,
                d > 0,
        ;
    } else {
        assert(x * d >= (q + 1) * d) by (nonlinear_arith)
            requires
                x >= q + 1,
                d > 0,
        ;
    }
}

/// `ceil_div(n, d)` is the one integer `q` with `(q - 1) * d < n <= q * d`.
pub proof fn lemma_ceil_div_bounds(n: int, d: int)
    requires
        d > 0,
    ensures
        (ceil_div(n, d) - 1) * d < n <= ceil_div(n, d) * d,
{
    let q = ceil_div(n, d);
    let m = (-n) / d;
    assert(m * d <= -n < (m + 1) * d) by (nonlinear_arith)
        requires
            d > 0,
            m == (-n) / d,
    ;
    assert((q - 1) * d < n <= q * d) by (nonlinear_arith)
        requires
            q == -m,
            m * d <= -n < (m + 1) * d,
    ;
}

/// A multiple `x * d` reaches `n` exactly when `x` is at least the ceiling quotient.
pub proof fn lemma_ceil_div_least(n: int, d: int, x: int)
    requires
        d > 0,
    ensures
        x * d >= n <==> x >= ceil_div(n, d),
{
    lemma_ceil_div_bounds(n, d);
    let q = ceil_div(n, d);
    if x >= q {
        assert(x * d >= q * d) by (nonlinear_arith)
            requires
                x >= q,
                d > 0,
        ;
    } else {
        assert(x * d <= (q - 1) * d) by (nonlinear_arith)
            requires
                x <= q - 1,
                d > 0,
        ;
    }
}

/// An integer between the two bounds that characterise a quotient is that quotient.
pub proof fn lemma_floor_div_unique(n: int, d: int, q: int)
    requires
        d > 0,
        q * d <= n < (q + 1) * d,
    ensures
        q == floor_div(n, d),
{
    lemma_floor_div_bounds(n, d);
    let f = floor_div(n, d);
    assert(q == f) by (nonlinear_arith)
        requires
            d > 0,
            q * d <= n < (q + 1) * d,
            f * d <= n < (f + 1) * d,
    ;
}

/// An integer between the two bounds that characterise a ceiling quotient is that quotient.
pub proof fn lemma_ceil_div_unique(n: int, d: int, q: int)
    requires
        d > 0,
        (q - 1) * d < n <= q * d,
    ensures
        q == ceil_div(n, d),
{
    lemma_ceil_div_bounds(n, d);
    let c = ceil_div(n, d);
    assert(q == c) by (nonlinear_arith)
        requires
            d > 0,
            (q - 1) * d < n <= q * d,
            (c - 1) * d < n <= c * d,
    ;
}

/// Relates the truncating quotient and remainder of machine division to `n`.
proof fn lemma_truncating_parts(n: int, d: int, t: int, r: int)
    requires
        d > 0,
        n >= 0 ==> t == n / d && r == n % d,
        n < 0 ==> t == -((-n) / d) && r == -((-n) % d),
    ensures
        t * d + r == n,
        -d < r < d,
        n >= 0 ==> r >= 0,
        n < 0 ==> r <= 0,
{
    if n >= 0 {
        assert(t * d + r == n && 0 <= r < d) by (nonlinear_arith)
            requires
                d > 0,
                t == n / d,
                r == n % d,
        ;
    } else {
        let m = (-n) / d;
        let s = (-n) % d;
        assert(m * d + s == -n && 0 <= s < d) by (nonlinear_arith)
            requires
                d > 0,
                m == (-n) / d,
                s == (-n) % d,
        ;
        assert(t * d == -(m * d)) by (nonlinear_arith)
            requires
                t == -m,
        ;
    }
}

/// Divides rounding toward negative infinity.
pub fn idiv_down(n: i64, d: i64) -> (q: i64)
    requires
        d > 0,
    ensures
        q == floor_div(n as int, d as int),
{
    let t: i64 = n / d;
    let r: i64 = n % d;
    proof {
        lemma_truncating_parts(n as int, d as int, t as int, r as int);
    }
    if r < 0 {
        proof {
            assert((t - 1) * d == t * d - d) by (nonlinear_arith);
            assert((t - 1 + 1) * d == t * d) by (nonlinear_arith);
            lemma_floor_div_unique(n as int, d as int, t - 1);
            assert(t - 1 >= n) by (nonlinear_arith)
                requires
                    d > 0,
                    n < 0,
                    n < (t - 1 + 1) * d,
            ;
        }
        t - 1
    } else {
        proof {
            assert((t + 1) * d == t * d + d) by (nonlinear_arith);
            lemma_floor_div_unique(n as int, d as int, t as int);
        }
        t
    }
}

/// Divides rounding toward positive infinity.
pub fn idiv_up(n: i64, d: i64) -> (q: i64)
    requires
        d > 0,
    ensures
        q == ceil_div(n as int, d as int),
{
    let t: i64 = n / d;
    let r: i64 = n % d;
    proof {
        lemma_truncating_parts(n as int, d as int, t as int, r as int);
    }
    if r > 0 {
        proof {
            assert((t + 1) * d == t * d + d) by (nonlinear_arith);
            assert((t + 1 - 1) * d == t * d) by (nonlinear_arith);
            lemma_ceil_div_unique(n as int, d as int, t + 1);
            assert(t + 1 <= n) by (nonlinear_arith)
                requires
                    d > 0,
                    n > 0,
                    (t + 1 - 1) * d < n,
            ;
        }
        t + 1
    } else {
        proof {
            assert((t - 1) * d == t * d - d) by (nonlinear_arith);
            lemma_ceil_div_unique(n as int, d as int, t as int);
        }
        t
    }
}

} // verus!
