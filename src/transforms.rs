//! Transforms of a single field: rounding, translation and scaling.
use crate::fixed::{abs, clamp, clamp_coord, floor_div, saturate, saturate_coord, LIMIT, UNIT};
use crate::sdf::{in_range, Sdf, SdfGrad, SdfInfo};
use crate::shapes::{axis, unit_axis};
use crate::vector::{dot, dot_spec, MAX_DIM};
use vstd::prelude::*;

verus! {

/// The child grown by a radius: every distance lowered by `self.1`.
#[derive(Clone, Copy, Debug, Default, PartialEq, Eq)]
pub struct Round<const N: usize, T>(pub T, pub i64);

impl<const N: usize, T: Sdf<N>> Sdf<N> for Round<N, T> {
    open spec fn wf(&self) -> bool {
        self.0.wf()
    }

    open spec fn dist(&self, pos: Seq<i64>) -> int {
        clamp(self.0.dist(pos) - self.1)
    }

    open spec fn inside(&self, pos: Seq<i64>) -> bool {
        self.dist(pos) <= 0
    }

    proof fn lemma_dist_range(&self, pos: Seq<i64>) {
    }

    fn call(&self, pos: [i64; N]) -> (r: i64) {
        let d = self.0.call(pos);
        saturate(d as i128 - self.1 as i128)
    }

    fn hits(&self, pos: [i64; N]) -> (r: bool) {
        self.call(pos) <= 0
    }
}

impl<const N: usize, T: SdfInfo<N>> SdfInfo<N> for Round<N, T> {
    type Info = T::Info;

    open spec fn info_at(&self, pos: Seq<i64>) -> T::Info {
        self.0.info_at(pos)
    }

    fn call_info(&self, pos: [i64; N]) -> (r: (i64, T::Info)) {
        let (d, info) = self.0.call_info(pos);
        (saturate(d as i128 - self.1 as i128), info)
    }
}

impl<const N: usize, T: SdfGrad<N>> SdfGrad<N> for Round<N, T> {
    open spec fn grad_at(&self, pos: Seq<i64>) -> Seq<i64> {
        self.0.grad_at(pos)
    }

    proof fn lemma_grad_range(&self, pos: Seq<i64>) {
        self.0.lemma_grad_range(pos);
    }

    fn call_grad(&self, pos: [i64; N]) -> (r: (i64, [i64; N])) {
        let (d, grad) = self.0.call_grad(pos);
        (saturate(d as i128 - self.1 as i128), grad)
    }
}

/// Builds rounded fields.
pub trait SdfRound<const N: usize>: Sdf<N> + Sized {
    /// `self` grown by `radius`.
    fn round(self, radius: i64) -> (r: Round<N, Self>)
        ensures
            r.0 == self,
            r.1 == radius,
    {
        Round(self, radius)
    }
}

impl<const N: usize, T: Sdf<N>> SdfRound<N> for T {

}

/// `pos - delta`, each coordinate saturated.
pub open spec fn shifted(pos: Seq<i64>, delta: Seq<i64>) -> Seq<i64> {
    Seq::new(pos.len(), |i: int| clamp_coord(pos[i] - delta[i]) as i64)
}

/// The child moved by `self.1`.
#[derive(Clone, Copy, Debug, PartialEq, Eq)]
pub struct Translate<const N: usize, T>(pub T, pub [i64; N]);

impl<const N: usize, T> Translate<N, T> {
    /// `pos` moved back into the child's frame.
    fn to_child(&self, pos: [i64; N]) -> (r: [i64; N])
        ensures
            r@ == shifted(pos@, self.1@),
    {
        let mut q = pos;
        let mut i: usize = 0;
        while i < N
            invariant
                0 <= i <= N,
                q@.len() == N,
                forall|j: int| 0 <= j < i ==> #[trigger] q@[j] == shifted(pos@, self.1@)[j],
                forall|j: int| i <= j < N ==> #[trigger] q@[j] == pos@[j],
            decreases N - i,
        {
            q[i] = saturate_coord(pos[i] as i128 - self.1[i] as i128);
            i = i + 1;
        }
        assert(q@ =~= shifted(pos@, self.1@));
        q
    }
}

impl<const N: usize, T: Sdf<N>> Sdf<N> for Translate<N, T> {
    open spec fn wf(&self) -> bool {
        self.0.wf()
    }

    open spec fn dist(&self, pos: Seq<i64>) -> int {
        self.0.dist(shifted(pos, self.1@))
    }

    open spec fn inside(&self, pos: Seq<i64>) -> bool {
        self.0.inside(shifted(pos, self.1@))
    }

    proof fn lemma_dist_range(&self, pos: Seq<i64>) {
        self.0.lemma_dist_range(shifted(pos, self.1@));
    }

    fn call(&self, pos: [i64; N]) -> (r: i64) {
        self.0.call(self.to_child(pos))
    }

    fn hits(&self, pos: [i64; N]) -> (r: bool) {
        self.0.hits(self.to_child(pos))
    }
}

impl<const N: usize, T: SdfInfo<N>> SdfInfo<N> for Translate<N, T> {
    type Info = T::Info;

    open spec fn info_at(&self, pos: Seq<i64>) -> T::Info {
        self.0.info_at(shifted(pos, self.1@))
    }

    fn call_info(&self, pos: [i64; N]) -> (r: (i64, T::Info)) {
        self.0.call_info(self.to_child(pos))
    }
}

impl<const N: usize, T: SdfGrad<N>> SdfGrad<N> for Translate<N, T> {
    open spec fn grad_at(&self, pos: Seq<i64>) -> Seq<i64> {
        self.0.grad_at(shifted(pos, self.1@))
    }

    proof fn lemma_grad_range(&self, pos: Seq<i64>) {
        self.0.lemma_grad_range(shifted(pos, self.1@));
    }

    fn call_grad(&self, pos: [i64; N]) -> (r: (i64, [i64; N])) {
        self.0.call_grad(self.to_child(pos))
    }
}

/// Builds translated fields.
pub trait SdfTranslate<const N: usize>: Sdf<N> + Sized {
    /// `self` moved by `translation`.
    fn translate(self, translation: [i64; N]) -> (r: Translate<N, Self>)
        ensures
            r.0 == self,
            r.1 == translation,
    {
        Translate(self, translation)
    }
}

impl<const N: usize, T: Sdf<N>> SdfTranslate<N> for T {

}

/// `x / s` for a coordinate `x` and a non-zero fixed-point factor `s`,
/// rounded down.
pub open spec fn over(x: int, s: int) -> int {
    if s > 0 {
        (x * UNIT) / s
    } else {
        (-(x * UNIT)) / (-s)
    }
}

/// `pos` divided by `scale` coordinate by coordinate, in fixed point, rounded
/// down and saturated.
pub open spec fn unscaled(pos: Seq<i64>, scale: Seq<i64>) -> Seq<i64> {
    Seq::new(pos.len(), |i: int| clamp_coord(over(pos[i] as int, scale[i] as int)) as i64)
}

/// The factors `s` are non-zero (a negative one mirrors its axis), each
/// magnitude fits an `i64`, and `m` is the smallest magnitude.
pub open spec fn is_min_factor(s: Seq<i64>, m: i64) -> bool {
    &&& forall|i: int| 0 <= i < s.len() ==> #[trigger] s[i] != 0 && s[i] > i64::MIN
    &&& 0 < m
    &&& forall|i: int| 0 <= i < s.len() ==> m <= abs(#[trigger] s[i] as int)
    &&& exists|i: int| 0 <= i < s.len() && abs(#[trigger] s[i] as int) == m
}

/// The child stretched by `self.1` along each axis (`UNIT` keeps an axis as
/// it is, a negative factor mirrors it); `self.2` is the smallest magnitude of
/// a factor, which scales the distance so that it stays a lower bound when the
/// axes are stretched unevenly.
#[derive(Clone, Copy, Debug, PartialEq, Eq)]
pub struct Scale<const N: usize, T>(pub T, pub [i64; N], pub i64);

impl<const N: usize, T> Scale<N, T> {
    /// `pos` brought back into the child's frame.
    fn to_child(&self, pos: [i64; N]) -> (r: [i64; N])
        requires
            forall|i: int| 0 <= i < N ==> #[trigger] self.1@[i] != 0 && self.1@[i] > i64::MIN,
        ensures
            r@ == unscaled(pos@, self.1@),
    {
        let mut q = pos;
        let mut i: usize = 0;
        while i < N
            invariant
                0 <= i <= N,
                q@.len() == N,
                forall|j: int| 0 <= j < N ==> #[trigger] self.1@[j] != 0 && self.1@[j] > i64::MIN,
                forall|j: int| 0 <= j < i ==> #[trigger] q@[j] == unscaled(pos@, self.1@)[j],
                forall|j: int| i <= j < N ==> #[trigger] q@[j] == pos@[j],
            decreases N - i,
        {
            let x = pos[i] as i128;
            assert(-0x80_0000_0000_0000_0000_0000_0000 <= x * UNIT <= 0x80_0000_0000_0000_0000_0000_0000)
                by (nonlinear_arith)
                requires
                    i64::MIN <= x <= i64::MAX,
            ;
            let f = self.1[i] as i128;
            assert(self.1@[i as int] != 0 && self.1@[i as int] > i64::MIN);
            let quotient = if f > 0 {
                floor_div(x * (UNIT as i128), f)
            } else {
                floor_div(-(x * (UNIT as i128)), -f)
            };
            q[i] = saturate_coord(quotient);
            i = i + 1;
        }
        assert(q@ =~= unscaled(pos@, self.1@));
        q
    }
}

impl<const N: usize, T: Sdf<N>> Sdf<N> for Scale<N, T> {
    open spec fn wf(&self) -> bool {
        &&& self.0.wf()
        &&& N >= 1
        &&& is_min_factor(self.1@, self.2)
    }

    open spec fn dist(&self, pos: Seq<i64>) -> int {
        clamp((self.0.dist(unscaled(pos, self.1@)) * self.2) / (UNIT as int))
    }

    open spec fn inside(&self, pos: Seq<i64>) -> bool {
        self.0.inside(unscaled(pos, self.1@))
    }

    proof fn lemma_dist_range(&self, pos: Seq<i64>) {
    }

    fn call(&self, pos: [i64; N]) -> (r: i64) {
        let q = self.to_child(pos);
        let d = self.0.call(q);
        saturate(scale_distance(d, self.2))
    }

    fn hits(&self, pos: [i64; N]) -> (r: bool) {
        self.0.hits(self.to_child(pos))
    }
}

/// `d * m / UNIT`, rounded down.
fn scale_distance(d: i64, m: i64) -> (r: i128)
    requires
        0 < m,
    ensures
        r == (d * m) / (UNIT as int),
{
    let x = d as i128;
    let y = m as i128;
    assert(-0x4000_0000_0000_0000_0000_0000_0000_0000 <= x * y <= 0x4000_0000_0000_0000_0000_0000_0000_0000)
        by (nonlinear_arith)
        requires
            i64::MIN <= x <= i64::MAX,
            0 < y <= i64::MAX,
    ;
    floor_div(x * y, UNIT as i128)
}

impl<const N: usize, T: SdfInfo<N>> SdfInfo<N> for Scale<N, T> {
    type Info = T::Info;

    open spec fn info_at(&self, pos: Seq<i64>) -> T::Info {
        self.0.info_at(unscaled(pos, self.1@))
    }

    fn call_info(&self, pos: [i64; N]) -> (r: (i64, T::Info)) {
        let (d, info) = self.0.call_info(self.to_child(pos));
        (saturate(scale_distance(d, self.2)), info)
    }
}

impl<const N: usize, T: SdfGrad<N>> SdfGrad<N> for Scale<N, T> {
    /// The child's gradient, taken in the child's frame.
    open spec fn grad_at(&self, pos: Seq<i64>) -> Seq<i64> {
        self.0.grad_at(unscaled(pos, self.1@))
    }

    proof fn lemma_grad_range(&self, pos: Seq<i64>) {
        self.0.lemma_grad_range(unscaled(pos, self.1@));
    }

    fn call_grad(&self, pos: [i64; N]) -> (r: (i64, [i64; N])) {
        let (d, grad) = self.0.call_grad(self.to_child(pos));
        (saturate(scale_distance(d, self.2)), grad)
    }
}

/// Builds scaled fields.
pub trait SdfScale<const N: usize>: Sdf<N> + Sized {
    /// `self` stretched by `scale` along each axis, in fixed point.
    fn scale(self, scale: [i64; N]) -> (r: Scale<N, Self>)
        requires
            N >= 1,
            forall|i: int| 0 <= i < N ==> #[trigger] scale@[i] != 0 && scale@[i] > i64::MIN,
        ensures
            r.0 == self,
            r.1 == scale,
            is_min_factor(scale@, r.2),
    {
        let first = scale[0];
        let mut m = if first < 0 {
            -first
        } else {
            first
        };
        assert(abs(scale@[0] as int) == m);
        let mut i: usize = 1;
        while i < N
            invariant
                1 <= i <= N,
                forall|j: int| 0 <= j < N ==> #[trigger] scale@[j] != 0 && scale@[j] > i64::MIN,
                0 < m,
                forall|j: int| 0 <= j < i ==> m <= abs(#[trigger] scale@[j] as int),
                exists|j: int| 0 <= j < i && abs(#[trigger] scale@[j] as int) == m,
            decreases N - i,
        {
            let f = scale[i];
            assert(scale@[i as int] != 0 && scale@[i as int] > i64::MIN);
            let a = if f < 0 {
                -f
            } else {
                f
            };
            if a < m {
                m = a;
            }
            assert(abs(scale@[i as int] as int) == a);
            i = i + 1;
        }
        Scale(self, scale, m)
    }
}

impl<const N: usize, T: Sdf<N>> SdfScale<N> for T {

}

/// `m * pos` in fixed point, each row's dot product rounded down and saturated.
pub open spec fn rotated<const N: usize>(m: [[i64; N]; N], pos: Seq<i64>) -> Seq<i64> {
    Seq::new(N as nat, |i: int| clamp_coord(dot_spec(m@[i]@, pos)) as i64)
}

/// The child turned: a point is carried into the child's frame by the matrix
/// `self.1`, the inverse of the rotation, in fixed point (`UNIT` is one).
#[derive(Clone, Copy, Debug, PartialEq, Eq)]
pub struct Rotate<const N: usize, T>(pub T, pub [[i64; N]; N]);

/// A turn in the plane.
pub type Rotate2D<T> = Rotate<2, T>;

/// A turn in space.
pub type Rotate3D<T> = Rotate<3, T>;

impl<const N: usize, T> Rotate<N, T> {
    /// Every entry of the matrix is in the distance range.
    pub open spec fn matrix_ok(&self) -> bool {
        &&& N <= MAX_DIM
        &&& forall|i: int| 0 <= i < N ==> in_range(#[trigger] self.1@[i]@)
    }

    /// `pos` carried into the child's frame.
    fn to_child(&self, pos: [i64; N]) -> (r: [i64; N])
        requires
            self.matrix_ok(),
        ensures
            r@ == rotated(self.1, pos@),
    {
        let mut q = pos;
        let mut i: usize = 0;
        while i < N
            invariant
                0 <= i <= N,
                q@.len() == N,
                self.matrix_ok(),
                forall|j: int| 0 <= j < i ==> #[trigger] q@[j] == rotated(self.1, pos@)[j],
            decreases N - i,
        {
            let row = self.1[i];
            assert(in_range(self.1@[i as int]@));
            q[i] = saturate_coord(dot(&row, &pos));
            i = i + 1;
        }
        assert(q@ =~= rotated(self.1, pos@));
        q
    }
}

impl<const N: usize, T: Default> Default for Rotate<N, T> {
    /// The default child, not turned.
    fn default() -> (r: Self)
        ensures
            forall|i: int| 0 <= i < N ==> #[trigger] r.1@[i]@ == unit_axis(N as nat, i),
    {
        let mut m: [[i64; N]; N] = [[0; N]; N];
        let mut i: usize = 0;
        while i < N
            invariant
                0 <= i <= N,
                m@.len() == N,
                forall|j: int| 0 <= j < i ==> #[trigger] m@[j]@ == unit_axis(N as nat, j),
            decreases N - i,
        {
            m[i] = axis(i);
            i = i + 1;
        }
        Rotate(T::default(), m)
    }
}

impl<const N: usize, T: Sdf<N>> Sdf<N> for Rotate<N, T> {
    open spec fn wf(&self) -> bool {
        self.0.wf() && self.matrix_ok()
    }

    open spec fn dist(&self, pos: Seq<i64>) -> int {
        self.0.dist(rotated(self.1, pos))
    }

    open spec fn inside(&self, pos: Seq<i64>) -> bool {
        self.0.inside(rotated(self.1, pos))
    }

    proof fn lemma_dist_range(&self, pos: Seq<i64>) {
        self.0.lemma_dist_range(rotated(self.1, pos));
    }

    fn call(&self, pos: [i64; N]) -> (r: i64) {
        self.0.call(self.to_child(pos))
    }

    fn hits(&self, pos: [i64; N]) -> (r: bool) {
        self.0.hits(self.to_child(pos))
    }
}

impl<const N: usize, T: SdfInfo<N>> SdfInfo<N> for Rotate<N, T> {
    type Info = T::Info;

    open spec fn info_at(&self, pos: Seq<i64>) -> T::Info {
        self.0.info_at(rotated(self.1, pos))
    }

    fn call_info(&self, pos: [i64; N]) -> (r: (i64, T::Info)) {
        self.0.call_info(self.to_child(pos))
    }
}

impl<const N: usize, T: SdfGrad<N>> SdfGrad<N> for Rotate<N, T> {
    /// The child's gradient, taken in the child's frame.
    open spec fn grad_at(&self, pos: Seq<i64>) -> Seq<i64> {
        self.0.grad_at(rotated(self.1, pos))
    }

    proof fn lemma_grad_range(&self, pos: Seq<i64>) {
        self.0.lemma_grad_range(rotated(self.1, pos));
    }

    fn call_grad(&self, pos: [i64; N]) -> (r: (i64, [i64; N])) {
        self.0.call_grad(self.to_child(pos))
    }
}

/// The matrix that turns the plane by the angle whose sine and cosine are
/// `sin` and `cos` (fixed point): rows `(cos, -sin)` and `(sin, cos)`.
pub fn turn_2d(sin: i64, cos: i64) -> (r: [[i64; 2]; 2])
    requires
        -UNIT <= sin <= UNIT,
        -UNIT <= cos <= UNIT,
    ensures
        r@[0]@[0] == cos,
        r@[0]@[1] == -sin,
        r@[1]@[0] == sin,
        r@[1]@[1] == cos,
        forall|i: int| 0 <= i < 2 ==> in_range(#[trigger] r@[i]@),
{
    let r = [[cos, -sin], [sin, cos]];
    assert(in_range(r@[0]@));
    assert(in_range(r@[1]@));
    r
}

/// Entry `(i, j)` of the matrix that turns by the angle whose sine and cosine
/// are `s` and `c` (fixed point) around the unit axis `n`:
/// `c * [i == j] + n[i] * n[j] * (1 - c) - e(i, j, l) * n[l] * s`, where `e` is
/// the permutation sign and `l` the third index; each product rounded down.
pub open spec fn rodrigues_entry(n: Seq<i64>, s: int, c: int, i: int, j: int) -> int {
    let u = UNIT as int;
    let k = (n[i] * n[j] * (u - c)) / (u * u);
    if i == j {
        c + k
    } else if i == 0 && j == 1 {
        k - (n[2] * s) / u
    } else if i == 1 && j == 0 {
        k + (n[2] * s) / u
    } else if i == 0 && j == 2 {
        k + (n[1] * s) / u
    } else if i == 2 && j == 0 {
        k - (n[1] * s) / u
    } else if i == 1 && j == 2 {
        k - (n[0] * s) / u
    } else {
        k + (n[0] * s) / u
    }
}

/// One entry of a turning matrix.
fn rodrigues_at(n: &[i64; 3], s: i64, c: i64, i: usize, j: usize) -> (r: i64)
    requires
        i < 3,
        j < 3,
        -UNIT <= s <= UNIT,
        -UNIT <= c <= UNIT,
        forall|l: int| 0 <= l < 3 ==> -UNIT <= #[trigger] n@[l] <= UNIT,
    ensures
        r == rodrigues_entry(n@, s as int, c as int, i as int, j as int),
        -4 * UNIT <= r <= 4 * UNIT,
{
    let u = UNIT as i128;
    let a = n[i] as i128;
    let b = n[j] as i128;
    let t = u - c as i128;
    assert(-UNIT * UNIT <= a * b <= UNIT * UNIT) by (nonlinear_arith)
        requires
            -UNIT <= a <= UNIT,
            -UNIT <= b <= UNIT,
    ;
    assert(-2 * UNIT * UNIT * UNIT <= (a * b) * t <= 2 * UNIT * UNIT * UNIT) by (nonlinear_arith)
        requires
            -UNIT * UNIT <= a * b <= UNIT * UNIT,
            0 <= t <= 2 * UNIT,
    ;
    let k = floor_div(a * b * t, u * u);
    proof {
        vstd::arithmetic::div_mod::lemma_div_is_ordered(
            -2 * UNIT * UNIT * UNIT,
            (a * b * t) as int,
            (u * u) as int,
        );
        vstd::arithmetic::div_mod::lemma_div_is_ordered(
            (a * b * t) as int,
            2 * UNIT * UNIT * UNIT,
            (u * u) as int,
        );
    }
    if i == j {
        return (c as i128 + k) as i64;
    }
    let l: usize = 3 - i - j;
    let m = n[l] as i128;
    assert(-UNIT * UNIT <= m * (s as i128) <= UNIT * UNIT) by (nonlinear_arith)
        requires
            -UNIT <= m <= UNIT,
            -UNIT <= s <= UNIT,
    ;
    let turn = floor_div(m * (s as i128), u);
    proof {
        vstd::arithmetic::div_mod::lemma_div_is_ordered(-UNIT * UNIT, (m * s) as int, u as int);
        vstd::arithmetic::div_mod::lemma_div_is_ordered((m * s) as int, UNIT * UNIT, u as int);
    }
    let positive = (i == 1 && j == 0) || (i == 0 && j == 2) || (i == 2 && j == 1);
    if positive {
        (k + turn) as i64
    } else {
        (k - turn) as i64
    }
}

/// The matrix that turns by the angle whose sine and cosine are `sin` and
/// `cos` (fixed point) around `axis`, which is normalized first.
pub fn rodrigues(axis: [i64; 3], sin: i64, cos: i64) -> (r: [[i64; 3]; 3])
    requires
        -UNIT <= sin <= UNIT,
        -UNIT <= cos <= UNIT,
    ensures
        forall|i: int, j: int|
            0 <= i < 3 && 0 <= j < 3 ==> #[trigger] r@[i]@[j] == rodrigues_entry(
                crate::sdf::normalized(axis@),
                sin as int,
                cos as int,
                i,
                j,
            ),
        forall|i: int| 0 <= i < 3 ==> in_range(#[trigger] r@[i]@),
{
    let n = crate::sdf::normalize(axis);
    let mut m: [[i64; 3]; 3] = [[0; 3]; 3];
    let mut i: usize = 0;
    while i < 3
        invariant
            0 <= i <= 3,
            m@.len() == 3,
            n@ == crate::sdf::normalized(axis@),
            -UNIT <= sin <= UNIT,
            -UNIT <= cos <= UNIT,
            forall|l: int| 0 <= l < 3 ==> -UNIT <= #[trigger] n@[l] <= UNIT,
            forall|a: int, b: int|
                0 <= a < i && 0 <= b < 3 ==> #[trigger] m@[a]@[b] == rodrigues_entry(
                    n@,
                    sin as int,
                    cos as int,
                    a,
                    b,
                ),
            forall|a: int| 0 <= a < i ==> in_range(#[trigger] m@[a]@),
        decreases 3 - i,
    {
        let row = [
            rodrigues_at(&n, sin, cos, i, 0),
            rodrigues_at(&n, sin, cos, i, 1),
            rodrigues_at(&n, sin, cos, i, 2),
        ];
        assert forall|b: int| 0 <= b < 3 implies #[trigger] row@[b] == rodrigues_entry(
            n@,
            sin as int,
            cos as int,
            i as int,
            b,
        ) && -LIMIT <= row@[b] <= LIMIT by {
            if b == 0 {
            } else if b == 1 {
            } else {
            }
        }
        m[i] = row;
        i = i + 1;
    }
    m
}

/// Builds turned fields in the plane.
pub trait SdfRotate2D: Sdf<2> + Sized {
    /// `self` turned; `inverse` carries points back into `self`'s frame.
    fn rot(self, inverse: [[i64; 2]; 2]) -> (r: Rotate2D<Self>)
        ensures
            r.0 == self,
            r.1 == inverse,
    {
        Rotate(self, inverse)
    }
}

impl<T: Sdf<2>> SdfRotate2D for T {

}

/// Builds turned fields in space.
pub trait SdfRotate3D: Sdf<3> + Sized {
    /// `self` turned; `inverse` carries points back into `self`'s frame.
    fn rot(self, inverse: [[i64; 3]; 3]) -> (r: Rotate3D<Self>)
        ensures
            r.0 == self,
            r.1 == inverse,
    {
        Rotate(self, inverse)
    }
}

impl<T: Sdf<3>> SdfRotate3D for T {

}

} // verus!
