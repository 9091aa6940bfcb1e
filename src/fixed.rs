//! Fixed-point lengths. Coordinates and distances count steps of `1 / UNIT`
//! length units; distances saturate at `±LIMIT` steps.
use vstd::prelude::*;

verus! {

/// One length unit, in fixed-point steps.
pub const UNIT: i64 = 1_000_000;

/// Half a length unit, in fixed-point steps.
pub const HALF_UNIT: i64 = 500_000;

/// Largest magnitude of a distance, in fixed-point steps.
pub const LIMIT: i64 = 1_099_511_627_776;

/// `x` saturated to the distance range `[-LIMIT, LIMIT]`.
pub open spec fn clamp(x: int) -> int {
    if x < -LIMIT {
        -LIMIT as int
    } else if x > LIMIT {
        LIMIT as int
    } else {
        x
    }
}

/// `x` saturated to the range of an `i64` coordinate.
pub open spec fn clamp_coord(x: int) -> int {
    if x < i64::MIN {
        i64::MIN as int
    } else if x > i64::MAX {
        i64::MAX as int
    } else {
        x
    }
}

/// Minimum of two integers.
pub open spec fn min(a: int, b: int) -> int {
    if a <= b {
        a
    } else {
        b
    }
}

/// Maximum of two integers.
pub open spec fn max(a: int, b: int) -> int {
    if a >= b {
        a
    } else {
        b
    }
}

/// Absolute value.
pub open spec fn abs(x: int) -> int {
    if x < 0 {
        -x
    } else {
        x
    }
}

/// `x` saturated to `[-LIMIT, LIMIT]`.
pub fn saturate(x: i128) -> (r: i64)
    ensures
        r == clamp(x as int),
{
    if x < -(LIMIT as i128) {
        -LIMIT
    } else if x > LIMIT as i128 {
        LIMIT
    } else {
        x as i64
    }
}

/// `x` saturated to the range of an `i64`.
pub fn saturate_coord(x: i128) -> (r: i64)
    ensures
        r == clamp_coord(x as int),
{
    if x < i64::MIN as i128 {
        i64::MIN
    } else if x > i64::MAX as i128 {
        i64::MAX
    } else {
        x as i64
    }
}

/// Division rounding toward negative infinity.
pub fn floor_div(a: i128, b: i128) -> (r: i128)
    requires
        0 < b <= 0x1_0000_0000_0000_0000,
        a >= i128::MIN / 2,
    ensures
        r == a as int / b as int,
{
    if a >= 0 {
        a / b
    } else {
        let m = (b - 1) - a;
        let t = m / b;
        proof {
            let s = m as int % b as int;
            vstd::arithmetic::div_mod::lemma_fundamental_div_mod(m as int, b as int);
            assert(a == (-t) * b + (b - 1 - s)) by (nonlinear_arith)
                requires
                    m == b * t + s,
                    m == (b - 1) - a,
            ;
            vstd::arithmetic::div_mod::lemma_fundamental_div_mod_converse(
                a as int,
                b as int,
                -t,
                b - 1 - s,
            );
        }
        -t
    }
}

/// `r` is the integer square root of `x`, rounded down.
pub open spec fn is_root(x: int, r: int) -> bool {
    0 <= r && r * r <= x < (r + 1) * (r + 1)
}

/// The integer square root of `x`, rounded down.
pub open spec fn root(x: int) -> int {
    choose|r: int| is_root(x, r)
}

pub proof fn lemma_root_unique(x: int, a: int, b: int)
    requires
        is_root(x, a),
        is_root(x, b),
    ensures
        a == b,
{
    lemma_root_monotone(x, x, a, b);
    lemma_root_monotone(x, x, b, a);
}

pub proof fn lemma_root_monotone(x: int, y: int, a: int, b: int)
    requires
        is_root(x, a),
        is_root(y, b),
        x <= y,
    ensures
        a <= b,
{
    if a > b {
        assert((b + 1) * (b + 1) <= a * a) by (nonlinear_arith)
            requires
                a >= b + 1,
                b >= 0,
        ;
    }
}

/// Every natural number has a square root.
pub proof fn lemma_root_exists(x: int)
    requires
        x >= 0,
    ensures
        is_root(x, root(x)),
    decreases x,
{
    if x == 0 {
        assert(is_root(0, 0));
    } else {
        lemma_root_exists(x - 1);
        let r = root(x - 1);
        if x < (r + 1) * (r + 1) {
            assert(is_root(x, r));
        } else {
            assert((r + 1) * (r + 1) <= x);
            assert(x < (r + 2) * (r + 2)) by (nonlinear_arith)
                requires
                    x - 1 < (r + 1) * (r + 1),
                    r >= 0,
            ;
            assert(is_root(x, r + 1));
        }
    }
}

/// `root(x)` for a given root of `x`.
pub proof fn lemma_root_is(x: int, r: int)
    requires
        is_root(x, r),
    ensures
        root(x) == r,
{
    lemma_root_exists(x);
    lemma_root_unique(x, r, root(x));
}

/// The integer square root, rounded down.
pub fn isqrt(x: u128) -> (r: u128)
    requires
        x <= 0x4000_0000_0000_0000_0000_0000_0000_0000,
    ensures
        r == root(x as int),
        r <= 0x8000_0000_0000_0000,
{
    let mut lo: u128 = 0;
    let mut hi: u128 = 0x8000_0000_0000_0001;
    assert(x < hi * hi) by (nonlinear_arith)
        requires
            x <= 0x4000_0000_0000_0000_0000_0000_0000_0000,
            hi == 0x8000_0000_0000_0001,
    ;
    while hi - lo > 1
        invariant
            lo < hi <= 0x8000_0000_0000_0001,
            lo * lo <= x,
            x < hi * hi,
        decreases hi - lo,
    {
        let mid = lo + (hi - lo) / 2;
        assert(mid * mid <= 0x4000_0000_0000_0000_0000_0000_0000_0000) by (nonlinear_arith)
            requires
                mid <= 0x8000_0000_0000_0000,
        ;
        if mid * mid <= x {
            lo = mid;
        } else {
            hi = mid;
        }
    }
    proof {
        lemma_root_is(x as int, lo as int);
    }
    lo
}

} // verus!
