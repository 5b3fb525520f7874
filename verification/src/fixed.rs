//! Fixed-point scalar arithmetic: every geometric quantity in this crate is
//! an integer count of 1/`UNIT` units, so the renderer's numerics are exact
//! integer computations with floor rounding.

use vstd::prelude::*;
use vstd::arithmetic::div_mod::lemma_fundamental_div_mod;
use vstd::arithmetic::div_mod::lemma_fundamental_div_mod_converse_div;
use vstd::arithmetic::div_mod::lemma_mod_bound;
use vstd::arithmetic::div_mod::lemma_div_nonincreasing;

verus! {

/// Number of fixed-point steps in one whole unit: a value `v` stands for the
/// real number `v / UNIT`.
pub const UNIT: i128 = 65536;

/// Half of one whole unit, the centre of a pixel footprint.
pub const HALF_UNIT: i128 = 32768;

/// Largest magnitude allowed for a coordinate, direction component or sphere
/// radius (2^29 raw steps, 8192 whole units): keeps every intermediate of the
/// quadratic intersection solver inside `i128`.
pub const COORD_MAX: i128 = 536870912;

/// Largest magnitude allowed for a ray parameter handed to `Ray::at` and the
/// intersection search (2^40 raw steps).
pub const T_MAX: i128 = 1099511627776;

/// The integer square root: the largest `r` with `r * r <= n` (0 for `n <= 0`).
pub open spec fn sqrt_floor(n: int) -> int
    decreases n,
{
    if n <= 0 {
        0
    } else {
        let r = sqrt_floor(n - 1);
        if (r + 1) * (r + 1) <= n {
            r + 1
        } else {
            r
        }
    }
}

/// `sqrt_floor(n)` squared never exceeds `n`, and the next integer's square
/// always does.
pub proof fn lemma_sqrt_floor_bounds(n: int)
    requires
        n >= 0,
    ensures
        0 <= sqrt_floor(n),
        sqrt_floor(n) * sqrt_floor(n) <= n,
        n < (sqrt_floor(n) + 1) * (sqrt_floor(n) + 1),
    decreases n,
{
    if n == 0 {
        assert(sqrt_floor(0) == 0);
    } else {
        lemma_sqrt_floor_bounds(n - 1);
        let r = sqrt_floor(n - 1);
        if (r + 1) * (r + 1) <= n {
            assert(n - 1 < (r + 1) * (r + 1));
            assert(n == (r + 1) * (r + 1));
            assert((r + 2) * (r + 2) > (r + 1) * (r + 1)) by (nonlinear_arith)
                requires
                    r >= 0,
            ;
        }
    }
}

/// Any integer whose square is at most `n` while its successor's square
/// exceeds `n` is `sqrt_floor(n)`.
pub proof fn lemma_sqrt_floor_unique(n: int, r: int)
    requires
        n >= 0,
        0 <= r,
        r * r <= n,
        n < (r + 1) * (r + 1),
    ensures
        r == sqrt_floor(n),
{
    lemma_sqrt_floor_bounds(n);
    let s = sqrt_floor(n);
    assert(r == s) by (nonlinear_arith)
        requires
            0 <= r,
            0 <= s,
            r * r <= n,
            n < (r + 1) * (r + 1),
            s * s <= n,
            n < (s + 1) * (s + 1),
    ;
}

/// A value of at least one whole step has a positive integer square root.
pub proof fn lemma_sqrt_floor_pos(n: int)
    requires
        n >= 1,
    ensures
        sqrt_floor(n) >= 1,
{
    lemma_sqrt_floor_bounds(n);
    let s = sqrt_floor(n);
    assert(s >= 1) by (nonlinear_arith)
        requires
            s >= 0,
            n < (s + 1) * (s + 1),
            n >= 1,
    ;
}

/// The floor of `a / b` for any nonzero `b`: with a negative divisor both
/// operands are negated, which leaves the exact quotient — and so its
/// floor — unchanged.
pub open spec fn floor_div_spec(a: int, b: int) -> int {
    if b > 0 {
        a / b
    } else {
        (-a) / (-b)
    }
}

/// Floor division by a positive `b` brackets the dividend between adjacent
/// multiples of the divisor.
pub proof fn lemma_div_floor_bounds(a: int, b: int)
    requires
        0 < b,
    ensures
        b * (a / b) <= a < b * (a / b + 1),
{
    lemma_fundamental_div_mod(a, b);
    lemma_mod_bound(a, b);
    let q = a / b;
    let r = a % b;
    assert(b * q <= a < b * (q + 1)) by (nonlinear_arith)
        requires
            0 < b,
            a == b * q + r,
            0 <= r < b,
    ;
}

/// The integer square root of `n`, computed by bisection.
pub fn isqrt(n: i128) -> (r: i128)
    requires
        0 <= n,
        n < 0x4000_0000_0000_0000_0000_0000_0000_0000,
    ensures
        r == sqrt_floor(n as int),
{
    let mut lo: i128 = 0;
    let mut hi: i128 = 0x8000_0000_0000_0000;
    while lo + 1 < hi
        invariant
            0 <= lo < hi <= 0x8000_0000_0000_0000,
            lo * lo <= n,
            n < hi * hi,
        decreases hi - lo,
    {
        let mid: i128 = lo + (((hi - lo) as u128 / 2u128) as i128);
        proof {
            assert(lo < mid < hi);
            assert(mid * mid <= 0x4000_0000_0000_0000_0000_0000_0000_0000) by (nonlinear_arith)
                requires
                    0 <= mid <= 0x8000_0000_0000_0000,
            ;
        }
        if mid * mid <= n {
            lo = mid;
        } else {
            hi = mid;
        }
    }
    proof {
        assert(hi == lo + 1);
        lemma_sqrt_floor_unique(n as int, lo as int);
    }
    lo
}

/// Floor division of `a` by a positive `b`: rounds toward negative infinity,
/// agreeing with the mathematical `/` of the specifications.
pub fn div_floor(a: i128, b: i128) -> (q: i128)
    requires
        0 < b,
        -0x4000_0000_0000_0000_0000_0000_0000_0000 < a,
        a < 0x4000_0000_0000_0000_0000_0000_0000_0000,
    ensures
        q == a as int / b as int,
        b * q <= a < b * (q + 1),
{
    if a >= 0 {
        let qu: i128 = ((a as u128) / (b as u128)) as i128;
        proof {
            lemma_div_nonincreasing(a as int, b as int);
            vstd::arithmetic::div_mod::lemma_div_pos_is_pos(a as int, b as int);
            assert(qu == a as int / b as int);
            lemma_div_floor_bounds(a as int, b as int);
        }
        qu
    } else {
        let na: i128 = -a;
        let qu: i128 = ((na as u128) / (b as u128)) as i128;
        let ghost rem = (na as int) % (b as int);
        proof {
            lemma_div_nonincreasing(na as int, b as int);
            vstd::arithmetic::div_mod::lemma_div_pos_is_pos(na as int, b as int);
            assert(qu == na as int / b as int);
            lemma_fundamental_div_mod(na as int, b as int);
            lemma_mod_bound(na as int, b as int);
            assert(0 <= qu * b <= na) by (nonlinear_arith)
                requires
                    0 < b,
                    0 <= qu,
                    na == b * qu + rem,
                    0 <= rem < b,
            ;
        }
        if qu * b == na {
            proof {
                assert(rem == 0) by (nonlinear_arith)
                    requires
                        qu * b == na,
                        na == b * qu + rem,
                ;
                assert(a as int == (-qu as int) * b + 0) by (nonlinear_arith)
                    requires
                        qu * b == na,
                        a == -na,
                ;
                lemma_fundamental_div_mod_converse_div(a as int, b as int, -qu as int, 0);
                lemma_div_floor_bounds(a as int, b as int);
            }
            -qu
        } else {
            proof {
                assert(rem != 0) by (nonlinear_arith)
                    requires
                        qu * b != na,
                        na == b * qu + rem,
                ;
                assert(a as int == (-qu - 1) * b + (b - rem)) by (nonlinear_arith)
                    requires
                        na == b * qu + rem,
                        a == -na,
                ;
                lemma_fundamental_div_mod_converse_div(a as int, b as int, -qu - 1, b - rem);
                lemma_div_floor_bounds(a as int, b as int);
            }
            -qu - 1
        }
    }
}

/// Clamps `x` into the closed range `[lo, hi]`.
pub fn clamp(x: i128, lo: i128, hi: i128) -> (r: i128)
    requires
        lo <= hi,
    ensures
        r == clamp_spec(x as int, lo as int, hi as int),
{
    if x < lo {
        lo
    } else if x > hi {
        hi
    } else {
        x
    }
}

/// The value of `x` pushed into `[lo, hi]`.
pub open spec fn clamp_spec(x: int, lo: int, hi: int) -> int {
    if x < lo {
        lo
    } else if x > hi {
        hi
    } else {
        x
    }
}

} // verus!
