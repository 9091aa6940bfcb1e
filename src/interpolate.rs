//! Linear blending of the information attached to surfaces, with a
//! fixed-point factor in `[0, UNIT]`.
use crate::fixed::{floor_div, HALF_UNIT, UNIT};
use vstd::prelude::*;

verus! {

/// Values that can be blended: factor `0` gives `self`, factor `UNIT` gives `rhs`.
pub trait Interpolate: Sized {
    /// The blend of `self` and `rhs` at factor `f`.
    spec fn lerp_spec(self, rhs: Self, f: int) -> Self;

    /// Factor `0` gives `self`; factor `UNIT` gives `rhs`.
    proof fn lemma_lerp_ends(self, rhs: Self)
        ensures
            self.lerp_spec(rhs, 0) == self,
            self.lerp_spec(rhs, UNIT as int) == rhs,
    ;

    fn lerp(self, rhs: Self, f: i64) -> (r: Self)
        requires
            0 <= f <= UNIT,
        ensures
            r == self.lerp_spec(rhs, f as int),
    ;
}

/// A blend of integers at either end is that end.
pub proof fn lemma_lerp_int_ends(a: int, b: int)
    ensures
        lerp_int(a, b, 0) == a,
        lerp_int(a, b, UNIT as int) == b,
{
    let u = UNIT as int;
    assert(a * (u - 0) + b * 0 == u * a) by (nonlinear_arith);
    assert(a * (u - u) + b * u == u * b) by (nonlinear_arith);
    vstd::arithmetic::div_mod::lemma_div_multiples_vanish(a, u);
    vstd::arithmetic::div_mod::lemma_div_multiples_vanish(b, u);
}

/// `(1 - f) * a + f * b` in fixed point, rounded down.
pub open spec fn lerp_int(a: int, b: int, f: int) -> int {
    (a * (UNIT - f) + b * f) / (UNIT as int)
}

/// `a + (b - a) * f` with the step rounded to the nearest integer, halves away
/// from zero.
pub open spec fn lerp_count(a: int, b: int, f: int) -> int {
    let num = (b - a) * f;
    if num >= 0 {
        a + (num + HALF_UNIT) / (UNIT as int)
    } else {
        a - (-num + HALF_UNIT) / (UNIT as int)
    }
}

/// A quotient below `q + 1` is at most `q`.
pub proof fn lemma_div_below(x: int, q: int, u: int)
    requires
        0 <= x < (q + 1) * u,
        u > 0,
    ensures
        x / u <= q,
{
    vstd::arithmetic::div_mod::lemma_fundamental_div_mod(x, u);
    let d = x / u;
    assert(d <= q) by (nonlinear_arith)
        requires
            x == u * d + x % u,
            0 <= x % u,
            x < (q + 1) * u,
            u > 0,
    ;
}

/// A blend stays between its two ends.
pub proof fn lemma_lerp_int_between(a: int, b: int, f: int)
    requires
        0 <= f <= UNIT,
    ensures
        crate::fixed::min(a, b) <= lerp_int(a, b, f) <= crate::fixed::max(a, b),
{
    let u = UNIT as int;
    let lo = crate::fixed::min(a, b);
    let hi = crate::fixed::max(a, b);
    let num = a * (u - f) + b * f;
    assert(lo * u <= num <= hi * u) by (nonlinear_arith)
        requires
            num == a * (u - f) + b * f,
            0 <= f <= u,
            lo <= a <= hi,
            lo <= b <= hi,
    ;
    vstd::arithmetic::div_mod::lemma_div_is_ordered(lo * u, num, u);
    vstd::arithmetic::div_mod::lemma_div_is_ordered(num, hi * u, u);
    vstd::arithmetic::div_mod::lemma_div_multiples_vanish(lo, u);
    vstd::arithmetic::div_mod::lemma_div_multiples_vanish(hi, u);
}

impl Interpolate for i64 {
    open spec fn lerp_spec(self, rhs: i64, f: int) -> i64 {
        lerp_int(self as int, rhs as int, f) as i64
    }

    proof fn lemma_lerp_ends(self, rhs: i64) {
        lemma_lerp_int_ends(self as int, rhs as int);
    }

    fn lerp(self, rhs: i64, f: i64) -> (r: i64) {
        let a = self as i128;
        let b = rhs as i128;
        let g = f as i128;
        proof {
            lemma_lerp_int_between(a as int, b as int, f as int);
            assert(-0x1_0000_0000_0000_0000_0000_0000 <= a * (UNIT - g) <= 0x1_0000_0000_0000_0000_0000_0000)
                by (nonlinear_arith)
                requires
                    i64::MIN <= a <= i64::MAX,
                    0 <= g <= UNIT,
            ;
            assert(-0x1_0000_0000_0000_0000_0000_0000 <= b * g <= 0x1_0000_0000_0000_0000_0000_0000)
                by (nonlinear_arith)
                requires
                    i64::MIN <= b <= i64::MAX,
                    0 <= g <= UNIT,
            ;
        }
        let num = a * ((UNIT as i128) - g) + b * g;
        let q = floor_div(num, UNIT as i128);
        assert(q == lerp_int(self as int, rhs as int, f as int));
        assert(i64::MIN <= q <= i64::MAX);
        let r = q as i64;
        assert(r == self.lerp_spec(rhs, f as int));
        r
    }
}

impl Interpolate for bool {
    open spec fn lerp_spec(self, rhs: bool, f: int) -> bool {
        if f <= HALF_UNIT {
            self
        } else {
            rhs
        }
    }

    proof fn lemma_lerp_ends(self, rhs: bool) {
    }

    fn lerp(self, rhs: bool, f: i64) -> (r: bool) {
        if f <= HALF_UNIT {
            self
        } else {
            rhs
        }
    }
}

impl Interpolate for usize {
    open spec fn lerp_spec(self, rhs: usize, f: int) -> usize {
        lerp_count(self as int, rhs as int, f) as usize
    }

    proof fn lemma_lerp_ends(self, rhs: usize) {
        let a = self as int;
        let b = rhs as int;
        let u = UNIT as int;
        assert((b - a) * 0 == 0) by (nonlinear_arith);
        vstd::arithmetic::div_mod::lemma_small_mod(HALF_UNIT as nat, UNIT as nat);
        vstd::arithmetic::div_mod::lemma_fundamental_div_mod_converse(HALF_UNIT as int, u, 0, HALF_UNIT as int);
        if b >= a {
            assert((b - a) * u >= 0) by (nonlinear_arith)
                requires
                    b >= a,
                    u > 0,
            ;
            vstd::arithmetic::div_mod::lemma_fundamental_div_mod_converse(
                (b - a) * u + HALF_UNIT,
                u,
                b - a,
                HALF_UNIT as int,
            );
        } else {
            assert((b - a) * u < 0) by (nonlinear_arith)
                requires
                    b < a,
                    u > 0,
            ;
            assert(-((b - a) * u) == (a - b) * u) by (nonlinear_arith);
            vstd::arithmetic::div_mod::lemma_fundamental_div_mod_converse(
                (a - b) * u + HALF_UNIT,
                u,
                a - b,
                HALF_UNIT as int,
            );
        }
    }

    fn lerp(self, rhs: usize, f: i64) -> (r: usize) {
        let a = self as i128;
        let b = rhs as i128;
        let g = f as i128;
        let u = UNIT as i128;
        let h = HALF_UNIT as i128;
        assert(-0x1_0000_0000_0000_0000 * u <= (b - a) * g <= 0x1_0000_0000_0000_0000 * u)
            by (nonlinear_arith)
            requires
                -0x1_0000_0000_0000_0000 <= b - a <= 0x1_0000_0000_0000_0000,
                0 <= g <= u,
        ;
        let num = (b - a) * g;
        if num >= 0 {
            proof {
                if b >= a {
                    assert(num <= (b - a) * u) by (nonlinear_arith)
                        requires
                            num == (b - a) * g,
                            0 <= g <= u,
                            b >= a,
                    ;
                    lemma_div_below((num + h) as int, (b - a) as int, u as int);
                } else {
                    assert(num == 0) by (nonlinear_arith)
                        requires
                            num == (b - a) * g,
                            0 <= g,
                            b < a,
                            num >= 0,
                    ;
                    lemma_div_below((num + h) as int, 0, u as int);
                }
            }
            (a + (num + h) / u) as usize
        } else {
            proof {
                assert(-num <= a * u) by (nonlinear_arith)
                    requires
                        num == (b - a) * g,
                        0 <= g <= u,
                        num < 0,
                        0 <= b,
                        0 <= a,
                ;
                lemma_div_below((-num + h) as int, a as int, u as int);
            }
            (a - (-num + h) / u) as usize
        }
    }
}

impl<T: Interpolate + Copy, const N: usize> Interpolate for [T; N] {
    /// Blends element by element.
    open spec fn lerp_spec(self, rhs: [T; N], f: int) -> [T; N] {
        choose|r: [T; N]| #[trigger] blends_each(self, rhs, f, r)
    }

    proof fn lemma_lerp_ends(self, rhs: [T; N]) {
        assert forall|i: int| 0 <= i < N implies #[trigger] self@[i] == self@[i].lerp_spec(
            rhs@[i],
            0,
        ) by {
            self@[i].lemma_lerp_ends(rhs@[i]);
        }
        assert forall|i: int| 0 <= i < N implies #[trigger] rhs@[i] == self@[i].lerp_spec(
            rhs@[i],
            UNIT as int,
        ) by {
            self@[i].lemma_lerp_ends(rhs@[i]);
        }
        lemma_array_lerp_unique(self, rhs, 0, self);
        lemma_array_lerp_unique(self, rhs, UNIT as int, rhs);
    }

    fn lerp(self, rhs: [T; N], f: i64) -> (r: [T; N]) {
        let mut out = self;
        let mut i: usize = 0;
        while i < N
            invariant
                0 <= i <= N,
                0 <= f <= UNIT,
                out@.len() == N,
                forall|j: int| 0 <= j < i ==> #[trigger] out@[j] == self@[j].lerp_spec(rhs@[j], f as int),
                forall|j: int| i <= j < N ==> #[trigger] out@[j] == self@[j],
            decreases N - i,
        {
            out[i] = out[i].lerp(rhs[i], f);
            i = i + 1;
        }
        proof {
            lemma_array_lerp_unique(self, rhs, f as int, out);
        }
        out
    }
}

/// Each element of `r` is the blend of the elements of `a` and `b` there.
pub open spec fn blends_each<T: Interpolate, const N: usize>(
    a: [T; N],
    b: [T; N],
    f: int,
    r: [T; N],
) -> bool {
    forall|i: int| 0 <= i < N ==> #[trigger] r@[i] == a@[i].lerp_spec(b@[i], f)
}

/// The element-wise blend of two arrays is the array holding each blend.
pub proof fn lemma_array_lerp_unique<T: Interpolate + Copy, const N: usize>(
    a: [T; N],
    b: [T; N],
    f: int,
    r: [T; N],
)
    requires
        forall|i: int| 0 <= i < N ==> #[trigger] r@[i] == a@[i].lerp_spec(b@[i], f),
    ensures
        a.lerp_spec(b, f) == r,
{
    assert(blends_each(a, b, f, r));
    let c = a.lerp_spec(b, f);
    assert(blends_each(a, b, f, c));
    assert(c =~= r);
}

} // verus!
