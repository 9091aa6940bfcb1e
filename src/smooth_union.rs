//! The smooth union: a quadratic smooth minimum that blends two fields near
//! where they meet.
use crate::fixed::{abs, clamp, floor_div, min, saturate, HALF_UNIT, LIMIT, UNIT};
use crate::interpolate::Interpolate;
use crate::interpolate::{lemma_lerp_int_between, lemma_lerp_int_ends, lerp_int};
use crate::sdf::{in_range, Sdf, SdfGrad, SdfInfo};
use vstd::prelude::*;

verus! {

/// How much the quadratic smooth minimum of `a` and `b` with blend radius `k`
/// lowers `min(a, b)`: `k * f * f` with `f = 1 - |a - b| / (4k)`, rounded up,
/// and nothing once `|a - b| >= 4k`.
pub open spec fn smooth_dip(a: int, b: int, k: int) -> int {
    let diff = abs(a - b);
    if diff >= 4 * k {
        0
    } else {
        ((4 * k - diff) * (4 * k - diff) + 16 * k - 1) / (16 * k)
    }
}

/// The quadratic smooth minimum of `a` and `b`, saturated.
pub open spec fn smooth_min(a: int, b: int, k: int) -> int {
    clamp(min(a, b) - smooth_dip(a, b, k))
}

/// Blend factor of the second child, in `[0, UNIT]`:
/// `clamp(1/2 + (a - b) / (2k), 0, 1)`.
pub open spec fn blend_factor(a: int, b: int, k: int) -> int {
    let f = HALF_UNIT + ((a - b) * UNIT) / (2 * k);
    if f < 0 {
        0
    } else if f > UNIT {
        UNIT as int
    } else {
        f
    }
}

pub proof fn lemma_smooth_dip_nonneg(a: int, b: int, k: int)
    requires
        k > 0,
    ensures
        smooth_dip(a, b, k) >= 0,
{
    let diff = abs(a - b);
    if diff < 4 * k {
        let g = 4 * k - diff;
        assert(g * g + 16 * k - 1 >= 0) by (nonlinear_arith)
            requires
                k > 0,
        ;
        vstd::arithmetic::div_mod::lemma_div_pos_is_pos(g * g + 16 * k - 1, 16 * k);
    }
}

/// Everything inside either child, with the seam between them rounded off
/// over the blend radius `self.2`.
#[derive(Clone, Copy, Debug, Default, PartialEq, Eq)]
pub struct SmoothUnion<T, U>(pub T, pub U, pub i64);

impl<const N: usize, T: Sdf<N>, U: Sdf<N>> Sdf<N> for SmoothUnion<T, U> {
    open spec fn wf(&self) -> bool {
        &&& self.0.wf()
        &&& self.1.wf()
        &&& 0 < self.2 <= LIMIT
    }

    open spec fn dist(&self, pos: Seq<i64>) -> int {
        smooth_min(self.0.dist(pos), self.1.dist(pos), self.2 as int)
    }

    open spec fn inside(&self, pos: Seq<i64>) -> bool {
        self.dist(pos) <= 0
    }

    proof fn lemma_dist_range(&self, pos: Seq<i64>) {
    }

    fn call(&self, pos: [i64; N]) -> (r: i64) {
        let a = self.0.call(pos);
        let b = self.1.call(pos);
        proof {
            assert(pos@.len() == N);
            self.0.lemma_dist_range(pos@);
            self.1.lemma_dist_range(pos@);
        }
        smooth(a, b, self.2)
    }

    /// Either child being hit is a hit; otherwise the blended distance decides.
    fn hits(&self, pos: [i64; N]) -> (r: bool) {
        let a = self.0.call(pos);
        proof {
            assert(pos@.len() == N);
            self.0.lemma_dist_range(pos@);
            self.1.lemma_dist_range(pos@);
        }
        if a <= 0 {
            proof {
                lemma_smooth_below_min(a as int, self.1.dist(pos@), self.2 as int);
            }
            return true;
        }
        let b = self.1.call(pos);
        if b <= 0 {
            proof {
                lemma_smooth_below_min(a as int, b as int, self.2 as int);
            }
            return true;
        }
        smooth(a, b, self.2) <= 0
    }
}

/// The quadratic smooth minimum of two distances.
fn smooth(a: i64, b: i64, k: i64) -> (r: i64)
    requires
        -LIMIT <= a <= LIMIT,
        -LIMIT <= b <= LIMIT,
        0 < k <= LIMIT,
    ensures
        r == smooth_min(a as int, b as int, k as int),
{
    let lo = if a <= b {
        a
    } else {
        b
    };
    let diff = if a >= b {
        a as i128 - b as i128
    } else {
        b as i128 - a as i128
    };
    let k4 = 4 * (k as i128);
    if diff >= k4 {
        proof {
            assert(smooth_dip(a as int, b as int, k as int) == 0);
        }
        saturate(lo as i128)
    } else {
        let g = k4 - diff;
        let den = 16 * (k as i128);
        assert(g * g <= 0x100_0000_0000_0000_0000_0000) by (nonlinear_arith)
            requires
                0 < g <= 4 * LIMIT,
        ;
        let dip = (g * g + den - 1) / den;
        proof {
            lemma_smooth_dip_nonneg(a as int, b as int, k as int);
            vstd::arithmetic::div_mod::lemma_div_is_ordered_by_denominator(
                (g * g + den - 1) as int,
                1,
                den as int,
            );
            assert((g * g + den - 1) as int / 1 == g * g + den - 1);
        }
        saturate(lo as i128 - dip)
    }
}

/// The smooth minimum never exceeds the plain minimum.
pub proof fn lemma_smooth_below_min(a: int, b: int, k: int)
    requires
        -LIMIT <= a <= LIMIT,
        -LIMIT <= b <= LIMIT,
        k > 0,
    ensures
        smooth_min(a, b, k) <= min(a, b),
{
    lemma_smooth_dip_nonneg(a, b, k);
}

/// The smooth minimum equals the plain minimum once the two distances differ by
/// at least four blend radii.
pub proof fn lemma_smooth_rigid(a: int, b: int, k: int)
    requires
        -LIMIT <= a <= LIMIT,
        -LIMIT <= b <= LIMIT,
        k > 0,
        abs(a - b) >= 4 * k,
    ensures
        smooth_min(a, b, k) == min(a, b),
{
}

/// A smooth union never reports more than the plain union of its children.
pub proof fn lemma_smooth_union_conservative<const N: usize, T: Sdf<N>, U: Sdf<N>>(
    s: SmoothUnion<T, U>,
    pos: Seq<i64>,
)
    requires
        s.wf(),
        pos.len() == N,
    ensures
        s.dist(pos) <= min(s.0.dist(pos), s.1.dist(pos)),
{
    s.0.lemma_dist_range(pos);
    s.1.lemma_dist_range(pos);
    lemma_smooth_below_min(s.0.dist(pos), s.1.dist(pos), s.2 as int);
}

/// Where the children's distances differ by at least four blend radii, a
/// smooth union is exactly the plain union.
pub proof fn lemma_smooth_union_rigid<const N: usize, T: Sdf<N>, U: Sdf<N>>(
    s: SmoothUnion<T, U>,
    pos: Seq<i64>,
)
    requires
        s.wf(),
        pos.len() == N,
        abs(s.0.dist(pos) - s.1.dist(pos)) >= 4 * s.2,
    ensures
        s.dist(pos) == min(s.0.dist(pos), s.1.dist(pos)),
{
    s.0.lemma_dist_range(pos);
    s.1.lemma_dist_range(pos);
    lemma_smooth_rigid(s.0.dist(pos), s.1.dist(pos), s.2 as int);
}

/// The quick test on the children's own hits agrees with the blended
/// distance: a smooth union is hit exactly where its distance is at most zero.
pub proof fn lemma_smooth_union_hits<const N: usize, T: Sdf<N>, U: Sdf<N>>(
    s: SmoothUnion<T, U>,
    pos: Seq<i64>,
)
    requires
        s.wf(),
        pos.len() == N,
    ensures
        (s.0.dist(pos) <= 0 || s.1.dist(pos) <= 0) ==> s.inside(pos),
        s.inside(pos) == (s.dist(pos) <= 0),
{
    lemma_smooth_union_conservative(s, pos);
}

impl<const N: usize, T, U> SdfInfo<N> for SmoothUnion<T, U> where
    T: SdfInfo<N>,
    U: SdfInfo<N, Info = T::Info>,
    T::Info: Interpolate,
 {
    type Info = T::Info;

    /// The two children's information blended by how near each one is.
    open spec fn info_at(&self, pos: Seq<i64>) -> T::Info {
        self.0.info_at(pos).lerp_spec(
            self.1.info_at(pos),
            blend_factor(self.0.dist(pos), self.1.dist(pos), self.2 as int),
        )
    }

    fn call_info(&self, pos: [i64; N]) -> (r: (i64, T::Info)) {
        let (a, info_a) = self.0.call_info(pos);
        let (b, info_b) = self.1.call_info(pos);
        proof {
            assert(pos@.len() == N);
            self.0.lemma_dist_range(pos@);
            self.1.lemma_dist_range(pos@);
        }
        let f = blend(a, b, self.2);
        (smooth(a, b, self.2), info_a.lerp(info_b, f))
    }
}

/// Past the blend, the information of a smooth union is the nearer child's.
pub proof fn lemma_smooth_union_info_far<const N: usize, T, U>(s: SmoothUnion<T, U>, pos: Seq<i64>)
    where
        T: SdfInfo<N>,
        U: SdfInfo<N, Info = T::Info>,
        T::Info: Interpolate,
    requires
        s.wf(),
    ensures
        s.1.dist(pos) - s.0.dist(pos) > s.2 ==> s.info_at(pos) == s.0.info_at(pos),
        s.0.dist(pos) - s.1.dist(pos) > s.2 ==> s.info_at(pos) == s.1.info_at(pos),
{
    let a = s.0.dist(pos);
    let b = s.1.dist(pos);
    lemma_seam_far(b, a, s.2 as int);
    assert(blend_factor(a, b, s.2 as int) == {
        let f = seam(b, a, s.2 as int);
        if f < 0 {
            0
        } else if f > UNIT {
            UNIT as int
        } else {
            f
        }
    });
    s.0.info_at(pos).lemma_lerp_ends(s.1.info_at(pos));
}

/// The blend factor of the second child.
fn blend(a: i64, b: i64, k: i64) -> (r: i64)
    requires
        -LIMIT <= a <= LIMIT,
        -LIMIT <= b <= LIMIT,
        0 < k <= LIMIT,
    ensures
        r == blend_factor(a as int, b as int, k as int),
        0 <= r <= UNIT,
{
    assert(-0x40_0000_0000_0000_0000 <= (a - b) * UNIT <= 0x40_0000_0000_0000_0000)
        by (nonlinear_arith)
        requires
            -2 * LIMIT <= a - b <= 2 * LIMIT,
    ;
    let num = (a as i128 - b as i128) * (UNIT as i128);
    let d = 2 * (k as i128);
    let q = floor_div(num, d);
    proof {
        vstd::arithmetic::div_mod::lemma_fundamental_div_mod(num as int, d as int);
        let r = num as int % d as int;
        assert(-0x80_0000_0000_0000_0000 <= q <= 0x80_0000_0000_0000_0000) by (nonlinear_arith)
            requires
                num == d * q + r,
                0 <= r < d,
                1 <= d <= 4 * LIMIT,
                -0x40_0000_0000_0000_0000 <= num <= 0x40_0000_0000_0000_0000,
        ;
    }
    let f = HALF_UNIT as i128 + q;
    if f < 0 {
        0
    } else if f > UNIT as i128 {
        UNIT
    } else {
        f as i64
    }
}

/// The blend factor of the first child before clamping, `1/2 + (b - a) / (2k)`
/// in fixed point, rounded down: it runs from `0` to `UNIT` across the blend.
pub open spec fn seam(a: int, b: int, k: int) -> int {
    HALF_UNIT + ((b - a) * UNIT) / (2 * k)
}

/// The gradient of the blended distance, from the children's distances `a`,
/// `b` and gradients `ga`, `gb`: with `f` the clamp of `seam(a, b, k)` to
/// `[0, UNIT]`, `lerp(gb, ga, f) + [-k <= b - a <= k] * (gb - ga) / (2k) * (b + a - k)`,
/// each component saturated. The correction applies exactly while the
/// unrounded seam is within `[0, 1]`, that is while `|b - a| <= k`.
pub open spec fn smooth_grad(a: int, b: int, ga: Seq<i64>, gb: Seq<i64>, k: int) -> Seq<i64> {
    let d = seam(a, b, k);
    let f = if d < 0 {
        0
    } else if d > UNIT {
        UNIT as int
    } else {
        d
    };
    Seq::new(
        ga.len(),
        |i: int|
            clamp(
                lerp_int(gb[i] as int, ga[i] as int, f) + if -k <= b - a <= k {
                    ((gb[i] - ga[i]) * (b + a - k)) / (2 * k)
                } else {
                    0
                },
            ) as i64,
    )
}

impl<const N: usize, T: SdfGrad<N>, U: SdfGrad<N>> SdfGrad<N> for SmoothUnion<T, U> {
    open spec fn grad_at(&self, pos: Seq<i64>) -> Seq<i64> {
        smooth_grad(
            self.0.dist(pos),
            self.1.dist(pos),
            self.0.grad_at(pos),
            self.1.grad_at(pos),
            self.2 as int,
        )
    }

    proof fn lemma_grad_range(&self, pos: Seq<i64>) {
        self.0.lemma_grad_range(pos);
    }

    fn call_grad(&self, pos: [i64; N]) -> (r: (i64, [i64; N])) {
        let (a, grad_a) = self.0.call_grad(pos);
        let (b, grad_b) = self.1.call_grad(pos);
        proof {
            assert(pos@.len() == N);
            self.0.lemma_dist_range(pos@);
            self.1.lemma_dist_range(pos@);
            self.0.lemma_grad_range(pos@);
            self.1.lemma_grad_range(pos@);
        }
        (smooth(a, b, self.2), blend_gradients(a, b, grad_a, grad_b, self.2))
    }
}

/// Past the blend on either side, the unclamped seam is outside `[0, UNIT]`.
pub proof fn lemma_seam_far(a: int, b: int, k: int)
    requires
        k > 0,
    ensures
        b - a > k ==> seam(a, b, k) >= UNIT,
        a - b > k ==> seam(a, b, k) <= 0,
{
    let u = UNIT as int;
    let h = HALF_UNIT as int;
    let x = (b - a) * u;
    assert(2 * k * h == k * u);
    vstd::arithmetic::div_mod::lemma_div_multiples_vanish(h, 2 * k);
    vstd::arithmetic::div_mod::lemma_div_multiples_vanish(-h, 2 * k);
    if b - a > k {
        assert(x >= 2 * k * h) by (nonlinear_arith)
            requires
                x == (b - a) * u,
                b - a > k,
                u > 0,
                2 * k * h == k * u,
        ;
        vstd::arithmetic::div_mod::lemma_div_is_ordered(2 * k * h, x, 2 * k);
    }
    if a - b > k {
        assert(x <= 2 * k * (-h)) by (nonlinear_arith)
            requires
                x == (b - a) * u,
                a - b > k,
                u > 0,
                2 * k * h == k * u,
        ;
        vstd::arithmetic::div_mod::lemma_div_is_ordered(x, 2 * k * (-h), 2 * k);
    }
}

/// Past the blend, the gradient of a smooth union is the nearer child's,
/// unblended.
pub proof fn lemma_smooth_union_grad_far<const N: usize, T: SdfGrad<N>, U: SdfGrad<N>>(
    s: SmoothUnion<T, U>,
    pos: Seq<i64>,
)
    requires
        s.wf(),
        pos.len() == N,
    ensures
        s.1.dist(pos) - s.0.dist(pos) > s.2 ==> s.grad_at(pos) == s.0.grad_at(pos),
        s.0.dist(pos) - s.1.dist(pos) > s.2 ==> s.grad_at(pos) == s.1.grad_at(pos),
{
    let a = s.0.dist(pos);
    let b = s.1.dist(pos);
    let k = s.2 as int;
    let ga = s.0.grad_at(pos);
    let gb = s.1.grad_at(pos);
    s.0.lemma_grad_range(pos);
    s.1.lemma_grad_range(pos);
    lemma_seam_far(a, b, k);
    let g = s.grad_at(pos);
    if b - a > k {
        assert forall|i: int| 0 <= i < N implies #[trigger] g[i] == ga[i] by {
            lemma_lerp_int_ends(gb[i] as int, ga[i] as int);
        }
        assert(g =~= ga);
    }
    if a - b > k {
        assert forall|i: int| 0 <= i < N implies #[trigger] g[i] == gb[i] by {
            lemma_lerp_int_ends(gb[i] as int, ga[i] as int);
        }
        assert(g =~= gb);
    }
}

/// The gradient of the blended distance.
fn blend_gradients<const N: usize>(a: i64, b: i64, ga: [i64; N], gb: [i64; N], k: i64) -> (r: [i64;
    N])
    requires
        -LIMIT <= a <= LIMIT,
        -LIMIT <= b <= LIMIT,
        0 < k <= LIMIT,
        in_range(ga@),
        in_range(gb@),
    ensures
        r@ == smooth_grad(a as int, b as int, ga@, gb@, k as int),
{
    let two_k = 2 * (k as i128);
    assert(-0x40_0000_0000_0000_0000 <= (b - a) * UNIT <= 0x40_0000_0000_0000_0000)
        by (nonlinear_arith)
        requires
            -2 * LIMIT <= b - a <= 2 * LIMIT,
    ;
    let num = (b as i128 - a as i128) * (UNIT as i128);
    let d = floor_div(num + (HALF_UNIT as i128) * two_k, two_k);
    proof {
        vstd::arithmetic::div_mod::lemma_hoist_over_denominator(
            num as int,
            HALF_UNIT as int,
            two_k as nat,
        );
        assert(HALF_UNIT * two_k == two_k * HALF_UNIT) by (nonlinear_arith);
    }
    let f: i64 = if d < 0 {
        0
    } else if d > UNIT as i128 {
        UNIT
    } else {
        d as i64
    };
    let gap = b as i128 - a as i128;
    let within = -(k as i128) <= gap && gap <= k as i128;
    let spread = b as i128 + a as i128 - k as i128;
    let mut out = ga;
    let mut i: usize = 0;
    while i < N
        invariant
            0 <= i <= N,
            out@.len() == N,
            ga@.len() == N,
            gb@.len() == N,
            in_range(ga@),
            in_range(gb@),
            0 <= f <= UNIT,
            two_k == 2 * k,
            0 < k <= LIMIT,
            -3 * LIMIT <= spread <= 3 * LIMIT,
            d == seam(a as int, b as int, k as int),
            f == (if d < 0 {
                0
            } else if d > UNIT {
                UNIT as int
            } else {
                d as int
            }),
            within == (-k <= b - a <= k),
            spread == b + a - k,
            forall|j: int|
                0 <= j < i ==> #[trigger] out@[j] == smooth_grad(
                    a as int,
                    b as int,
                    ga@,
                    gb@,
                    k as int,
                )[j],
        decreases N - i,
    {
        let x = ga[i];
        let y = gb[i];
        proof {
            lemma_lerp_int_between(y as int, x as int, f as int);
        }
        let mixed = y.lerp(x, f);
        let correction = if within {
            assert(-0x10_0000_0000_0000_0000_0000 <= (y - x) * spread <= 0x10_0000_0000_0000_0000_0000)
                by (nonlinear_arith)
                requires
                    -2 * LIMIT <= y - x <= 2 * LIMIT,
                    -3 * LIMIT <= spread <= 3 * LIMIT,
            ;
            let c = floor_div((y as i128 - x as i128) * spread, two_k);
            proof {
                vstd::arithmetic::div_mod::lemma_div_is_ordered(
                    -0x10_0000_0000_0000_0000_0000,
                    ((y - x) * spread) as int,
                    two_k as int,
                );
                vstd::arithmetic::div_mod::lemma_div_is_ordered(
                    ((y - x) * spread) as int,
                    0x10_0000_0000_0000_0000_0000,
                    two_k as int,
                );
                vstd::arithmetic::div_mod::lemma_div_is_ordered_by_denominator(
                    0x10_0000_0000_0000_0000_0000,
                    1,
                    two_k as int,
                );
                assert(-0x10_0000_0000_0000_0000_0000 / (two_k as int) >= -0x10_0000_0000_0000_0000_0000)
                    by {
                    vstd::arithmetic::div_mod::lemma_fundamental_div_mod(
                        -0x10_0000_0000_0000_0000_0000,
                        two_k as int,
                    );
                    let q = -0x10_0000_0000_0000_0000_0000 / (two_k as int);
                    let r = -0x10_0000_0000_0000_0000_0000 % (two_k as int);
                    assert(q >= -0x10_0000_0000_0000_0000_0000) by (nonlinear_arith)
                        requires
                            -0x10_0000_0000_0000_0000_0000 == two_k * q + r,
                            0 <= r < two_k,
                            two_k >= 1,
                    ;
                }
            }
            c
        } else {
            0
        };
        out[i] = saturate(mixed as i128 + correction);
        i = i + 1;
    }
    assert(out@ =~= smooth_grad(a as int, b as int, ga@, gb@, k as int));
    out
}

/// Builds smooth unions.
pub trait SdfSmoothUnion<const N: usize>: Sdf<N> + Sized {
    /// The union of `self` and `other`, blended over the radius `factor`.
    fn smooth_or<S: Sdf<N>>(self, other: S, factor: i64) -> (r: SmoothUnion<Self, S>)
        ensures
            r.0 == self,
            r.1 == other,
            r.2 == factor,
    {
        SmoothUnion(self, other, factor)
    }
}

impl<const N: usize, T: Sdf<N>> SdfSmoothUnion<N> for T {

}

} // verus!
