//! The capabilities of a signed distance field: its distance, whether a point
//! is inside, and the information attached to the nearest surface.
use crate::fixed::{clamp_coord, floor_div, saturate_coord, LIMIT, UNIT};
use crate::items::{capped_squares, squares, SQUARES_CAP};
use vstd::prelude::*;

verus! {

/// A signed distance field over `N`-dimensional fixed-point points: negative
/// inside, zero on the surface, positive outside.
pub trait Sdf<const N: usize> {
    /// The node's parameters allow it to be evaluated.
    spec fn wf(&self) -> bool;

    /// Signed distance from `pos` to the nearest surface.
    spec fn dist(&self, pos: Seq<i64>) -> int;

    /// Whether `pos` is inside or on the surface.
    spec fn inside(&self, pos: Seq<i64>) -> bool;

    /// Distances stay in the saturation range.
    proof fn lemma_dist_range(&self, pos: Seq<i64>)
        requires
            self.wf(),
            pos.len() == N,
        ensures
            -LIMIT <= self.dist(pos) <= LIMIT,
    ;

    /// Finds the distance to the nearest surface.
    fn call(&self, pos: [i64; N]) -> (r: i64)
        requires
            self.wf(),
        ensures
            r == self.dist(pos@),
    ;

    /// Tests whether `pos` is inside or on the surface.
    fn hits(&self, pos: [i64; N]) -> (r: bool)
        requires
            self.wf(),
        ensures
            r == self.inside(pos@),
    ;
}

/// A field that also reports the information attached to the nearest
/// surface, together with the distance, in one traversal.
pub trait SdfInfo<const N: usize>: Sdf<N> {
    /// Information attached to the surfaces.
    type Info;

    /// Information attached to the surface nearest to `pos`.
    spec fn info_at(&self, pos: Seq<i64>) -> Self::Info;

    /// The distance at `pos` and the information of the nearest surface.
    fn call_info(&self, pos: [i64; N]) -> (r: (i64, Self::Info))
        requires
            self.wf(),
        ensures
            r.0 == self.dist(pos@),
            r.1 == self.info_at(pos@),
    ;

    /// The information of the surface nearest to `pos`.
    fn info(&self, pos: [i64; N]) -> (r: Self::Info)
        requires
            self.wf(),
        ensures
            r == self.info_at(pos@),
    {
        self.call_info(pos).1
    }
}

/// A field whose surfaces carry no information: its info is `()`.
pub trait SdfNoInfo<const N: usize>: Sdf<N> {

}

impl<const N: usize, T: SdfNoInfo<N>> SdfInfo<N> for T {
    type Info = ();

    open spec fn info_at(&self, pos: Seq<i64>) -> () {
        ()
    }

    fn call_info(&self, pos: [i64; N]) -> (r: (i64, ())) {
        (self.call(pos), ())
    }
}

/// Every component of `v` is in the distance range.
pub open spec fn in_range(v: Seq<i64>) -> bool {
    forall|i: int| 0 <= i < v.len() ==> -LIMIT <= #[trigger] v[i] <= LIMIT
}

/// A field that also reports its gradient: the direction in which its
/// distance grows fastest, of length about `UNIT`.
pub trait SdfGrad<const N: usize>: Sdf<N> {
    /// The gradient at `pos`.
    spec fn grad_at(&self, pos: Seq<i64>) -> Seq<i64>;

    /// Gradients have `N` components, each in the distance range.
    proof fn lemma_grad_range(&self, pos: Seq<i64>)
        requires
            self.wf(),
            pos.len() == N,
        ensures
            self.grad_at(pos).len() == N,
            in_range(self.grad_at(pos)),
    ;

    /// The distance at `pos` and the gradient there.
    fn call_grad(&self, pos: [i64; N]) -> (r: (i64, [i64; N]))
        requires
            self.wf(),
        ensures
            r.0 == self.dist(pos@),
            r.1@ == self.grad_at(pos@),
    ;

    /// The gradient at `pos`.
    fn grad(&self, pos: [i64; N]) -> (r: [i64; N])
        requires
            self.wf(),
        ensures
            r@ == self.grad_at(pos@),
    {
        self.call_grad(pos).1
    }
}

/// A field with every capability: what a marcher and a renderer consume.
pub trait SdfFull<const N: usize>: SdfInfo<N> + SdfGrad<N> {

}

impl<const N: usize, T: SdfInfo<N> + SdfGrad<N>> SdfFull<N> for T {

}

/// Length of `v`, rounded down, its sum of squares saturated at `SQUARES_CAP`.
pub open spec fn capped_length(v: Seq<i64>) -> int {
    crate::fixed::root(crate::fixed::min(squares(v, v.len() as int), SQUARES_CAP as int))
}

/// `x * UNIT / n`, rounded toward zero.
pub open spec fn share(x: int, n: int) -> int {
    if x < 0 {
        -((-x * UNIT) / n)
    } else {
        (x * UNIT) / n
    }
}

/// `v` scaled to length `UNIT`: each component `v[i] * UNIT / n`, rounded
/// toward zero, where `n` is the length of `v` rounded down. The zero vector
/// stays zero.
pub open spec fn normalized(v: Seq<i64>) -> Seq<i64> {
    let n = capped_length(v);
    Seq::new(
        v.len(),
        |i: int|
            if n == 0 {
                0i64
            } else {
                share(v[i] as int, n) as i64
            },
    )
}

/// Each component's magnitude plus one.
pub open spec fn bumped(r: Seq<i64>) -> Seq<i64> {
    Seq::new(r.len(), |i: int| (crate::fixed::abs(r[i] as int) + 1) as i64)
}

/// One square never exceeds the sum it is part of.
pub proof fn lemma_term_below_squares(v: Seq<i64>, i: int, k: int)
    requires
        0 <= i < k <= v.len(),
    ensures
        v[i] * v[i] <= squares(v, k),
    decreases k,
{
    crate::items::lemma_squares_nonneg(v, k - 1);
    if i < k - 1 {
        lemma_term_below_squares(v, i, k - 1);
        let x = v[k - 1] as int;
        assert(x * x >= 0) by (nonlinear_arith);
    }
}

/// No component is longer than the whole vector.
pub proof fn lemma_component_below_length(v: Seq<i64>, i: int)
    requires
        0 <= i < v.len(),
    ensures
        crate::fixed::abs(v[i] as int) <= capped_length(v),
{
    let s = squares(v, v.len() as int);
    crate::items::lemma_squares_nonneg(v, v.len() as int);
    lemma_term_below_squares(v, i, v.len() as int);
    let c = crate::fixed::min(s, SQUARES_CAP as int);
    crate::fixed::lemma_root_exists(c);
    let n = capped_length(v);
    let x = crate::fixed::abs(v[i] as int);
    assert(x * x == v[i] * v[i]) by (nonlinear_arith)
        requires
            x == crate::fixed::abs(v[i] as int),
    ;
    if s < SQUARES_CAP {
        assert(x <= n) by (nonlinear_arith)
            requires
                x * x <= s,
                s < (n + 1) * (n + 1),
                x >= 0,
                n >= 0,
        ;
    } else {
        assert(crate::fixed::is_root(SQUARES_CAP as int, 0x8000_0000_0000_0000))
            by (nonlinear_arith);
        crate::fixed::lemma_root_is(SQUARES_CAP as int, 0x8000_0000_0000_0000);
    }
}

/// A component of a normalized vector, against the exact share of its
/// component: never larger, and less than one step smaller.
pub proof fn lemma_share_bounds(x: int, n: int)
    requires
        0 < n,
        crate::fixed::abs(x) <= n,
    ensures
        crate::fixed::abs(share(x, n)) <= UNIT,
        n * crate::fixed::abs(share(x, n)) <= UNIT * crate::fixed::abs(x),
        UNIT * crate::fixed::abs(x) < n * (crate::fixed::abs(share(x, n)) + 1),
{
    let a = crate::fixed::abs(x);
    let t = a * UNIT;
    let m = t / n;
    vstd::arithmetic::div_mod::lemma_fundamental_div_mod(t, n);
    assert(0 <= t <= n * UNIT) by (nonlinear_arith)
        requires
            0 <= a <= n,
            t == a * UNIT,
    ;
    vstd::arithmetic::div_mod::lemma_div_pos_is_pos(t, n);
    vstd::arithmetic::div_mod::lemma_div_is_ordered(t, n * UNIT, n);
    vstd::arithmetic::div_mod::lemma_div_multiples_vanish(UNIT as int, n);
    assert(n * UNIT == n * (UNIT as int));
    assert(crate::fixed::abs(share(x, n)) == m);
    assert(n * m <= t < n * (m + 1)) by (nonlinear_arith)
        requires
            t == n * m + t % n,
            0 <= t % n < n,
    ;
}

/// Componentwise bounds between two vectors carry over to their squared
/// lengths.
pub proof fn lemma_squares_scaled(a: Seq<i64>, b: Seq<i64>, p: int, q: int, k: int)
    requires
        0 <= k <= a.len(),
        k <= b.len(),
        0 <= p,
        0 <= q,
        forall|i: int| 0 <= i < k ==> p * (#[trigger] a[i] * a[i]) <= q * (b[i] * b[i]),
    ensures
        p * squares(a, k) <= q * squares(b, k),
    decreases k,
{
    if k > 0 {
        lemma_squares_scaled(a, b, p, q, k - 1);
        let x = a[k - 1] * a[k - 1];
        let y = b[k - 1] * b[k - 1];
        assert(p * x <= q * y);
        assert(p * (squares(a, k - 1) + x) == p * squares(a, k - 1) + p * x) by (nonlinear_arith);
        assert(q * (squares(b, k - 1) + y) == q * squares(b, k - 1) + q * y) by (nonlinear_arith);
    }
}

/// What normalizing guarantees: every component within `UNIT`; and, with `n`
/// the length of `v` rounded down, the squared length of the result is at most
/// `(UNIT * |v| / n)^2` and at least that bound minus one step per component.
pub proof fn lemma_normalized(v: Seq<i64>)
    ensures
        in_range(normalized(v)),
        forall|i: int|
            0 <= i < v.len() ==> -UNIT <= #[trigger] normalized(v)[i] <= UNIT,
        capped_length(v) > 0 ==> capped_length(v) * capped_length(v) * squares(
            normalized(v),
            v.len() as int,
        ) <= UNIT * UNIT * squares(v, v.len() as int),
        capped_length(v) > 0 ==> UNIT * UNIT * squares(v, v.len() as int) <= capped_length(v)
            * capped_length(v) * squares(bumped(normalized(v)), v.len() as int),
{
    let n = capped_length(v);
    let r = normalized(v);
    let u = UNIT as int;
    assert forall|i: int| 0 <= i < v.len() implies -UNIT <= #[trigger] r[i] <= UNIT by {
        lemma_component_below_length(v, i);
        if n > 0 {
            lemma_share_bounds(v[i] as int, n);
        }
    }
    if n > 0 {
        assert forall|i: int| 0 <= i < v.len() implies n * n * (#[trigger] r[i] * r[i]) <= u * u * (
        v[i] * v[i]) by {
            lemma_component_below_length(v, i);
            lemma_share_bounds(v[i] as int, n);
            let m = crate::fixed::abs(r[i] as int);
            let a = crate::fixed::abs(v[i] as int);
            assert(r[i] * r[i] == m * m) by (nonlinear_arith)
                requires
                    m == crate::fixed::abs(r[i] as int),
            ;
            assert(v[i] * v[i] == a * a) by (nonlinear_arith)
                requires
                    a == crate::fixed::abs(v[i] as int),
            ;
            assert(n * n * (m * m) <= u * u * (a * a)) by (nonlinear_arith)
                requires
                    0 <= n * m <= u * a,
                    0 <= m,
                    0 < n,
            ;
        }
        lemma_squares_scaled(r, v, n * n, u * u, v.len() as int);
        let w = bumped(r);
        assert forall|i: int| 0 <= i < v.len() implies u * u * (#[trigger] v[i] * v[i]) <= n * n * (
        w[i] * w[i]) by {
            lemma_component_below_length(v, i);
            lemma_share_bounds(v[i] as int, n);
            let m = crate::fixed::abs(r[i] as int);
            let a = crate::fixed::abs(v[i] as int);
            assert(w[i] == m + 1);
            assert(v[i] * v[i] == a * a) by (nonlinear_arith)
                requires
                    a == crate::fixed::abs(v[i] as int),
            ;
            assert(u * u * (a * a) <= n * n * ((m + 1) * (m + 1))) by (nonlinear_arith)
                requires
                    0 <= u * a < n * (m + 1),
                    0 <= a,
                    0 < u,
            ;
        }
        lemma_squares_scaled(v, w, u * u, n * n, v.len() as int);
    }
}

/// `v` scaled to length `UNIT` (see `lemma_normalized` for how near).
pub fn normalize<const N: usize>(v: [i64; N]) -> (r: [i64; N])
    ensures
        r@ == normalized(v@),
        in_range(r@),
        forall|i: int| 0 <= i < N ==> -UNIT <= #[trigger] r@[i] <= UNIT,
        capped_length(v@) > 0 ==> capped_length(v@) * capped_length(v@) * squares(r@, N as int)
            <= UNIT * UNIT * squares(v@, N as int),
        capped_length(v@) > 0 ==> UNIT * UNIT * squares(v@, N as int) <= capped_length(v@)
            * capped_length(v@) * squares(bumped(r@), N as int),
{
    let acc = capped_squares(&v);
    let n = crate::fixed::isqrt(acc);
    let mut out = v;
    let mut i: usize = 0;
    while i < N
        invariant
            0 <= i <= N,
            out@.len() == N,
            v@.len() == N,
            n == capped_length(v@),
            n <= 0x8000_0000_0000_0000,
            forall|j: int| 0 <= j < i ==> #[trigger] out@[j] == normalized(v@)[j],
            forall|j: int| i <= j < N ==> #[trigger] out@[j] == v@[j],
        decreases N - i,
    {
        if n == 0 {
            out[i] = 0;
        } else {
            let x = v[i] as i128;
            let a = if x < 0 {
                -x
            } else {
                x
            };
            proof {
                lemma_component_below_length(v@, i as int);
                lemma_share_bounds(x as int, n as int);
            }
            assert(0 <= a * UNIT <= 0x80_0000_0000_0000_0000_0000_0000) by (nonlinear_arith)
                requires
                    0 <= a <= 0x8000_0000_0000_0000,
            ;
            let m = floor_div(a * (UNIT as i128), n as i128);
            out[i] = if x < 0 {
                (-m) as i64
            } else {
                m as i64
            };
        }
        i = i + 1;
    }
    assert(out@ =~= normalized(v@));
    proof {
        lemma_normalized(v@);
    }
    out
}

/// `pos` with coordinate `i` moved by `delta`, saturated.
pub open spec fn nudged(pos: Seq<i64>, i: int, delta: int) -> Seq<i64> {
    pos.update(i, clamp_coord(pos[i] + delta) as i64)
}

/// How far each side of `pos` a central difference samples, in fixed-point
/// steps: a thousandth of a unit.
pub const NUDGE: i64 = 1_000;

/// Factor applied to a central difference before it is normalized, so that the
/// length it is divided by keeps three more digits.
pub const FINE: i64 = 1_000;

/// The central difference of `s` along each axis, over `2 * NUDGE` steps,
/// times `FINE`.
pub open spec fn differences<const N: usize, S: Sdf<N>>(s: S, pos: Seq<i64>) -> Seq<i64> {
    Seq::new(
        N as nat,
        |i: int| ((s.dist(nudged(pos, i, NUDGE as int)) - s.dist(nudged(pos, i, -NUDGE))) * FINE) as i64,
    )
}

/// The numerical gradient of `s`: central differences, normalized.
pub open spec fn numeric_grad<const N: usize, S: Sdf<N>>(s: S, pos: Seq<i64>) -> Seq<i64> {
    normalized(differences(s, pos))
}

/// The numerical gradient, for fields without an analytic one: `2N`
/// evaluations of the distance around `pos`, plus one at `pos`.
pub fn numeric_call_grad<const N: usize, S: Sdf<N>>(s: &S, pos: [i64; N]) -> (r: (i64, [i64; N]))
    requires
        s.wf(),
    ensures
        r.0 == s.dist(pos@),
        r.1@ == numeric_grad(*s, pos@),
        in_range(r.1@),
{
    let mut diff = pos;
    let mut i: usize = 0;
    while i < N
        invariant
            0 <= i <= N,
            s.wf(),
            diff@.len() == N,
            pos@.len() == N,
            forall|j: int| 0 <= j < i ==> #[trigger] diff@[j] == differences(*s, pos@)[j],
        decreases N - i,
    {
        let mut lo = pos;
        lo[i] = saturate_coord(pos[i] as i128 - NUDGE as i128);
        let mut hi = pos;
        hi[i] = saturate_coord(pos[i] as i128 + NUDGE as i128);
        assert(lo@ =~= nudged(pos@, i as int, -NUDGE));
        assert(hi@ =~= nudged(pos@, i as int, NUDGE as int));
        let a = s.call(lo);
        let b = s.call(hi);
        proof {
            s.lemma_dist_range(lo@);
            s.lemma_dist_range(hi@);
        }
        diff[i] = (b - a) * FINE;
        i = i + 1;
    }
    assert(diff@ =~= differences(*s, pos@));
    (s.call(pos), normalize(diff))
}

/// `v` pointing the other way.
pub open spec fn negated(v: Seq<i64>) -> Seq<i64> {
    Seq::new(v.len(), |i: int| -v[i] as i64)
}

/// `v` pointing the other way.
pub fn negate<const N: usize>(v: [i64; N]) -> (r: [i64; N])
    requires
        in_range(v@),
    ensures
        r@ == negated(v@),
        in_range(r@),
{
    let mut out = v;
    let mut i: usize = 0;
    while i < N
        invariant
            0 <= i <= N,
            out@.len() == N,
            v@.len() == N,
            in_range(v@),
            forall|j: int| 0 <= j < i ==> #[trigger] out@[j] == negated(v@)[j],
            forall|j: int| i <= j < N ==> #[trigger] out@[j] == v@[j],
        decreases N - i,
    {
        assert(-LIMIT <= v@[i as int] <= LIMIT);
        out[i] = -v[i];
        i = i + 1;
    }
    assert(out@ =~= negated(v@));
    out
}

} // verus!
