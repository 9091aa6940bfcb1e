//! Primitive surfaces built on the dot product: slabs, cubes, cuboids,
//! cylinders and oriented planes.
use crate::fixed::{
    abs, clamp, clamp_coord, floor_div, max, min, saturate, saturate_coord, HALF_UNIT, LIMIT,
    UNIT,
};
use crate::items::capped_squares;
use crate::sdf::{
    capped_length, in_range, normalize, numeric_call_grad, numeric_grad, Sdf, SdfGrad, SdfNoInfo,
};
use crate::vector::{dot, dot_spec, MAX_DIM};
use vstd::prelude::*;

verus! {

/// `UNIT` along axis `k`, zero elsewhere.
pub open spec fn unit_axis(n: nat, k: int) -> Seq<i64> {
    Seq::new(
        n,
        |i: int|
            if i == k {
                UNIT
            } else {
                0i64
            },
    )
}

/// `UNIT` along axis `k`, zero elsewhere.
pub fn axis<const N: usize>(k: usize) -> (r: [i64; N])
    ensures
        r@ == unit_axis(N as nat, k as int),
        in_range(r@),
{
    let mut r: [i64; N] = [0; N];
    let mut i: usize = 0;
    while i < N
        invariant
            0 <= i <= N,
            r@.len() == N,
            forall|j: int| 0 <= j < i ==> #[trigger] r@[j] == unit_axis(N as nat, k as int)[j],
        decreases N - i,
    {
        r[i] = if i == k {
            UNIT
        } else {
            0
        };
        i = i + 1;
    }
    assert(r@ =~= unit_axis(N as nat, k as int));
    r
}

/// The length of `v`, as the sphere and the gradients measure it.
fn length<const N: usize>(v: &[i64; N]) -> (r: i128)
    ensures
        r == capped_length(v@),
        0 <= r <= 0x8000_0000_0000_0000,
{
    let n = crate::fixed::isqrt(capped_squares(v));
    proof {
        assert(v@.len() == N);
    }
    n as i128
}

/// Two parallel planes `Middle(axis)`, half a unit on each side of the origin
/// along `axis`: the slab between them is inside.
#[derive(Clone, Copy, Debug, PartialEq, Eq)]
pub struct Middle<const N: usize>(pub [i64; N]);

impl<const N: usize> Middle<N> {
    /// The slab across `axis`, which is normalized.
    pub fn new(axis: [i64; N]) -> (r: Self)
        ensures
            r.0@ == crate::sdf::normalized(axis@),
    {
        Middle(normalize(axis))
    }
}

impl<const N: usize> Default for Middle<N> {
    /// The slab across the last axis.
    fn default() -> (r: Self)
        ensures
            N >= 1 ==> r.0@ == unit_axis(N as nat, N - 1),
    {
        if N == 0 {
            Middle([0; N])
        } else {
            Middle(axis(N - 1))
        }
    }
}

impl<const N: usize> Sdf<N> for Middle<N> {
    open spec fn wf(&self) -> bool {
        N <= MAX_DIM && in_range(self.0@)
    }

    open spec fn dist(&self, pos: Seq<i64>) -> int {
        clamp(abs(dot_spec(self.0@, pos)) - HALF_UNIT)
    }

    open spec fn inside(&self, pos: Seq<i64>) -> bool {
        self.dist(pos) <= 0
    }

    proof fn lemma_dist_range(&self, pos: Seq<i64>) {
    }

    fn call(&self, pos: [i64; N]) -> (r: i64) {
        let t = dot(&self.0, &pos);
        let a = if t < 0 {
            -t
        } else {
            t
        };
        saturate(a - HALF_UNIT as i128)
    }

    fn hits(&self, pos: [i64; N]) -> (r: bool) {
        self.call(pos) <= 0
    }
}

impl<const N: usize> SdfNoInfo<N> for Middle<N> {

}

impl<const N: usize> SdfGrad<N> for Middle<N> {
    /// The axis, pointing away from the middle plane.
    open spec fn grad_at(&self, pos: Seq<i64>) -> Seq<i64> {
        if dot_spec(self.0@, pos) >= 0 {
            self.0@
        } else {
            crate::sdf::negated(self.0@)
        }
    }

    proof fn lemma_grad_range(&self, pos: Seq<i64>) {
    }

    fn call_grad(&self, pos: [i64; N]) -> (r: (i64, [i64; N])) {
        let t = dot(&self.0, &pos);
        let d = self.call(pos);
        if t >= 0 {
            (d, self.0)
        } else {
            (d, crate::sdf::negate(self.0))
        }
    }
}

/// The largest distance among the first `i` slabs; `-LIMIT` for none.
pub open spec fn slabs_dist<const N: usize>(mids: Seq<Middle<N>>, pos: Seq<i64>, i: int) -> int
    decreases i,
{
    if i <= 0 {
        -LIMIT as int
    } else {
        max(slabs_dist(mids, pos, i - 1), mids[i - 1].dist(pos))
    }
}

/// A cube of side one unit centred on the origin: the intersection of one
/// slab per axis.
#[derive(Clone, Copy, Debug, PartialEq, Eq)]
pub struct Cube<const N: usize>(pub [Middle<N>; N]);

impl<const N: usize> Default for Cube<N> {
    /// The slabs across each axis.
    fn default() -> (r: Self)
        ensures
            forall|i: int| 0 <= i < N ==> (#[trigger] r.0@[i]).0@ == unit_axis(N as nat, i),
    {
        let mut mids: [Middle<N>; N] = [Middle([0; N]); N];
        let mut i: usize = 0;
        while i < N
            invariant
                0 <= i <= N,
                mids@.len() == N,
                forall|j: int| 0 <= j < i ==> (#[trigger] mids@[j]).0@ == unit_axis(N as nat, j),
            decreases N - i,
        {
            mids[i] = Middle(axis(i));
            i = i + 1;
        }
        Cube(mids)
    }
}

impl<const N: usize> Sdf<N> for Cube<N> {
    open spec fn wf(&self) -> bool {
        forall|i: int| 0 <= i < N ==> (#[trigger] self.0@[i]).wf()
    }

    open spec fn dist(&self, pos: Seq<i64>) -> int {
        slabs_dist(self.0@, pos, N as int)
    }

    open spec fn inside(&self, pos: Seq<i64>) -> bool {
        self.dist(pos) <= 0
    }

    proof fn lemma_dist_range(&self, pos: Seq<i64>) {
        lemma_slabs_dist_range(self.0@, pos, N as int);
    }

    fn call(&self, pos: [i64; N]) -> (r: i64) {
        let mut acc: i64 = -LIMIT;
        let mut i: usize = 0;
        while i < N
            invariant
                0 <= i <= N,
                self.wf(),
                self.0@.len() == N,
                acc == slabs_dist(self.0@, pos@, i as int),
            decreases N - i,
        {
            let d = self.0[i].call(pos);
            if d > acc {
                acc = d;
            }
            i = i + 1;
        }
        acc
    }

    /// Inside every slab; stops at the first slab that misses.
    fn hits(&self, pos: [i64; N]) -> (r: bool) {
        let mut i: usize = 0;
        while i < N
            invariant
                0 <= i <= N,
                self.wf(),
                self.0@.len() == N,
                slabs_dist(self.0@, pos@, i as int) <= 0,
            decreases N - i,
        {
            if self.0[i].call(pos) > 0 {
                proof {
                    lemma_slabs_dist_monotone(self.0@, pos@, i + 1, N as int);
                }
                return false;
            }
            i = i + 1;
        }
        true
    }
}

pub proof fn lemma_slabs_dist_range<const N: usize>(mids: Seq<Middle<N>>, pos: Seq<i64>, i: int)
    ensures
        -LIMIT <= slabs_dist(mids, pos, i) <= LIMIT,
    decreases i,
{
    if i > 0 {
        lemma_slabs_dist_range(mids, pos, i - 1);
    }
}

/// Taking more slabs never lowers the distance.
pub proof fn lemma_slabs_dist_monotone<const N: usize>(
    mids: Seq<Middle<N>>,
    pos: Seq<i64>,
    i: int,
    k: int,
)
    requires
        0 <= i <= k,
    ensures
        slabs_dist(mids, pos, i) <= slabs_dist(mids, pos, k),
    decreases k - i,
{
    if i < k {
        lemma_slabs_dist_monotone(mids, pos, i, k - 1);
    }
}

/// A dot product with a unit axis picks that coordinate.
pub proof fn lemma_dot_unit_axis(n: nat, k: int, pos: Seq<i64>, j: int)
    requires
        0 <= k < n,
        0 <= j <= n,
        pos.len() == n,
    ensures
        crate::vector::dot_sum(unit_axis(n, k), pos, j) == if j > k {
            UNIT * pos[k]
        } else {
            0
        },
    decreases j,
{
    if j > 0 {
        lemma_dot_unit_axis(n, k, pos, j - 1);
        let e = unit_axis(n, k)[j - 1];
        assert(e * pos[j - 1] == if j - 1 == k {
            UNIT * pos[k]
        } else {
            0
        }) by (nonlinear_arith)
            requires
                e == (if j - 1 == k {
                    UNIT as int
                } else {
                    0
                }),
        ;
    }
}

/// The first `j` slabs all contain `pos` exactly when their largest distance
/// is at most zero.
pub proof fn lemma_slabs_inside<const N: usize>(mids: Seq<Middle<N>>, pos: Seq<i64>, j: int)
    requires
        0 <= j,
    ensures
        (slabs_dist(mids, pos, j) <= 0) == (forall|l: int| 0 <= l < j ==> #[trigger] mids[l].dist(pos) <= 0),
    decreases j,
{
    if j > 0 {
        lemma_slabs_inside(mids, pos, j - 1);
        if slabs_dist(mids, pos, j) <= 0 {
            assert forall|l: int| 0 <= l < j implies #[trigger] mids[l].dist(pos) <= 0 by {
                if l < j - 1 {
                }
            }
        }
    }
}

/// The default cube holds exactly the points with every coordinate within half
/// a unit of the origin.
pub proof fn lemma_cube_inside<const N: usize>(c: Cube<N>, pos: Seq<i64>)
    requires
        N <= MAX_DIM,
        pos.len() == N,
        forall|i: int| 0 <= i < N ==> (#[trigger] c.0@[i]).0@ == unit_axis(N as nat, i),
    ensures
        c.inside(pos) == (forall|i: int| 0 <= i < N ==> abs(#[trigger] pos[i] as int) <= HALF_UNIT),
        c.inside(pos) == (c.dist(pos) <= 0),
{
    assert forall|i: int| 0 <= i < N implies (#[trigger] c.0@[i]).dist(pos) == clamp(
        abs(pos[i] as int) - HALF_UNIT,
    ) by {
        lemma_dot_unit_axis(N as nat, i, pos, N as int);
        vstd::arithmetic::div_mod::lemma_div_multiples_vanish(pos[i] as int, UNIT as int);
    }
    lemma_slabs_inside(c.0@, pos, N as int);
    if c.inside(pos) {
        assert forall|i: int| 0 <= i < N implies abs(#[trigger] pos[i] as int) <= HALF_UNIT by {
            assert(c.0@[i].dist(pos) <= 0);
        }
    } else {
        let l = choose|l: int| 0 <= l < N && !(c.0@[l].dist(pos) <= 0);
        assert(abs(pos[l] as int) > HALF_UNIT);
    }
}

impl<const N: usize> SdfNoInfo<N> for Cube<N> {

}

impl<const N: usize> SdfGrad<N> for Cube<N> {
    /// The numerical gradient.
    open spec fn grad_at(&self, pos: Seq<i64>) -> Seq<i64> {
        numeric_grad(*self, pos)
    }

    proof fn lemma_grad_range(&self, pos: Seq<i64>) {
        crate::sdf::lemma_normalized(crate::sdf::differences(*self, pos));
    }

    fn call_grad(&self, pos: [i64; N]) -> (r: (i64, [i64; N])) {
        numeric_call_grad(self, pos)
    }
}

/// How far each coordinate of `pos` is beyond the half-side `dims[i] / 2`,
/// saturated; negative inside.
pub open spec fn overhang(pos: Seq<i64>, dims: Seq<i64>) -> Seq<i64> {
    Seq::new(pos.len(), |i: int| clamp(abs(pos[i] as int) - dims[i] / 2) as i64)
}

/// Each component of `v`, or zero where it is negative.
pub open spec fn positive_part(v: Seq<i64>) -> Seq<i64> {
    Seq::new(v.len(), |i: int| max(v[i] as int, 0) as i64)
}

/// The largest of the first `i` components of `v`; `0` for none.
pub open spec fn largest(v: Seq<i64>, i: int) -> int
    decreases i,
{
    if i <= 0 {
        0
    } else if i == 1 {
        v[0] as int
    } else {
        max(largest(v, i - 1), v[i - 1] as int)
    }
}

/// An axis-aligned box centred on the origin with side lengths `self.0`.
#[derive(Clone, Copy, Debug, PartialEq, Eq)]
pub struct Cuboid<const N: usize>(pub [i64; N]);

impl<const N: usize> Default for Cuboid<N> {
    /// The unit cube.
    fn default() -> (r: Self)
        ensures
            forall|i: int| 0 <= i < N ==> #[trigger] r.0@[i] == UNIT,
    {
        let mut dims: [i64; N] = [0; N];
        let mut i: usize = 0;
        while i < N
            invariant
                0 <= i <= N,
                dims@.len() == N,
                forall|j: int| 0 <= j < i ==> #[trigger] dims@[j] == UNIT,
            decreases N - i,
        {
            dims[i] = UNIT;
            i = i + 1;
        }
        Cuboid(dims)
    }
}

impl<const N: usize> Sdf<N> for Cuboid<N> {
    open spec fn wf(&self) -> bool {
        true
    }

    open spec fn dist(&self, pos: Seq<i64>) -> int {
        let o = overhang(pos, self.0@);
        clamp(capped_length(positive_part(o)) + min(largest(o, N as int), 0))
    }

    open spec fn inside(&self, pos: Seq<i64>) -> bool {
        self.dist(pos) <= 0
    }

    proof fn lemma_dist_range(&self, pos: Seq<i64>) {
    }

    fn call(&self, pos: [i64; N]) -> (r: i64) {
        let mut o: [i64; N] = pos;
        let mut outside: [i64; N] = pos;
        let mut top: i64 = 0;
        let mut i: usize = 0;
        while i < N
            invariant
                0 <= i <= N,
                o@.len() == N,
                outside@.len() == N,
                forall|j: int| 0 <= j < i ==> #[trigger] o@[j] == overhang(pos@, self.0@)[j],
                forall|j: int|
                    0 <= j < i ==> #[trigger] outside@[j] == positive_part(
                        overhang(pos@, self.0@),
                    )[j],
                top == largest(overhang(pos@, self.0@), i as int),
            decreases N - i,
        {
            let x = pos[i] as i128;
            let a = if x < 0 {
                -x
            } else {
                x
            };
            let h = floor_div(self.0[i] as i128, 2);
            let v = saturate(a - h);
            o[i] = v;
            outside[i] = if v > 0 {
                v
            } else {
                0
            };
            if i == 0 || v > top {
                top = v;
            }
            i = i + 1;
        }
        assert(outside@ =~= positive_part(overhang(pos@, self.0@)));
        let len = length(&outside);
        let low = if top < 0 {
            top
        } else {
            0
        };
        saturate(len + low as i128)
    }

    fn hits(&self, pos: [i64; N]) -> (r: bool) {
        self.call(pos) <= 0
    }
}

impl<const N: usize> SdfNoInfo<N> for Cuboid<N> {

}

impl<const N: usize> SdfGrad<N> for Cuboid<N> {
    /// The numerical gradient.
    open spec fn grad_at(&self, pos: Seq<i64>) -> Seq<i64> {
        numeric_grad(*self, pos)
    }

    proof fn lemma_grad_range(&self, pos: Seq<i64>) {
        crate::sdf::lemma_normalized(crate::sdf::differences(*self, pos));
    }

    fn call_grad(&self, pos: [i64; N]) -> (r: (i64, [i64; N])) {
        numeric_call_grad(self, pos)
    }
}

/// The part of `pos` along `axis`: `(pos . axis) * axis`, the dot product
/// saturated, in fixed point, rounded down.
pub open spec fn along(axis: Seq<i64>, pos: Seq<i64>) -> Seq<i64> {
    let t = clamp(dot_spec(axis, pos));
    Seq::new(pos.len(), |i: int| ((t * axis[i]) / (UNIT as int)) as i64)
}

/// The part of `pos` across `axis`, saturated.
pub open spec fn across(axis: Seq<i64>, pos: Seq<i64>) -> Seq<i64> {
    let p = along(axis, pos);
    Seq::new(pos.len(), |i: int| clamp_coord(pos[i] - p[i]) as i64)
}

/// The parts of `pos` along and across `axis`.
fn split_along<const N: usize>(axis: &[i64; N], pos: &[i64; N]) -> (r: ([i64; N], [i64; N]))
    requires
        N <= MAX_DIM,
        in_range(axis@),
    ensures
        r.0@ == along(axis@, pos@),
        r.1@ == across(axis@, pos@),
{
    let t = saturate(dot(axis, pos)) as i128;
    let mut p: [i64; N] = *pos;
    let mut q: [i64; N] = *pos;
    let mut i: usize = 0;
    while i < N
        invariant
            0 <= i <= N,
            p@.len() == N,
            q@.len() == N,
            in_range(axis@),
            t == clamp(dot_spec(axis@, pos@)),
            forall|j: int| 0 <= j < i ==> #[trigger] p@[j] == along(axis@, pos@)[j],
            forall|j: int| 0 <= j < i ==> #[trigger] q@[j] == across(axis@, pos@)[j],
        decreases N - i,
    {
        let a = axis[i] as i128;
        assert(-LIMIT * LIMIT <= t * a <= LIMIT * LIMIT) by (nonlinear_arith)
            requires
                -LIMIT <= t <= LIMIT,
                -LIMIT <= a <= LIMIT,
        ;
        let c = floor_div(t * a, UNIT as i128);
        proof {
            vstd::arithmetic::div_mod::lemma_div_is_ordered(
                -LIMIT * LIMIT,
                (t * a) as int,
                UNIT as int,
            );
            vstd::arithmetic::div_mod::lemma_div_is_ordered(
                (t * a) as int,
                LIMIT * LIMIT,
                UNIT as int,
            );
        }
        p[i] = c as i64;
        q[i] = saturate_coord(pos[i] as i128 - c);
        i = i + 1;
    }
    assert(p@ =~= along(axis@, pos@));
    assert(q@ =~= across(axis@, pos@));
    (p, q)
}

/// An infinite cylinder of radius half a unit around `self.0`, an axis of
/// length `UNIT`.
#[derive(Clone, Copy, Debug, PartialEq, Eq)]
pub struct Cylinder<const N: usize>(pub [i64; N]);

impl<const N: usize> Cylinder<N> {
    /// The cylinder around `axis`, taken as it is.
    pub fn new(axis: [i64; N]) -> (r: Self)
        ensures
            r.0 == axis,
    {
        Cylinder(axis)
    }
}

impl<const N: usize> Default for Cylinder<N> {
    /// The cylinder around the last axis.
    fn default() -> (r: Self)
        ensures
            N >= 1 ==> r.0@ == unit_axis(N as nat, N - 1),
    {
        if N == 0 {
            Cylinder([0; N])
        } else {
            Cylinder(axis(N - 1))
        }
    }
}

impl<const N: usize> Sdf<N> for Cylinder<N> {
    open spec fn wf(&self) -> bool {
        N <= MAX_DIM && in_range(self.0@)
    }

    open spec fn dist(&self, pos: Seq<i64>) -> int {
        clamp(capped_length(across(self.0@, pos)) - HALF_UNIT)
    }

    open spec fn inside(&self, pos: Seq<i64>) -> bool {
        self.dist(pos) <= 0
    }

    proof fn lemma_dist_range(&self, pos: Seq<i64>) {
    }

    fn call(&self, pos: [i64; N]) -> (r: i64) {
        let (_, perp) = split_along(&self.0, &pos);
        saturate(length(&perp) - HALF_UNIT as i128)
    }

    fn hits(&self, pos: [i64; N]) -> (r: bool) {
        self.call(pos) <= 0
    }
}

impl<const N: usize> SdfNoInfo<N> for Cylinder<N> {

}

impl<const N: usize> SdfGrad<N> for Cylinder<N> {
    /// The numerical gradient.
    open spec fn grad_at(&self, pos: Seq<i64>) -> Seq<i64> {
        numeric_grad(*self, pos)
    }

    proof fn lemma_grad_range(&self, pos: Seq<i64>) {
        crate::sdf::lemma_normalized(crate::sdf::differences(*self, pos));
    }

    fn call_grad(&self, pos: [i64; N]) -> (r: (i64, [i64; N])) {
        numeric_call_grad(self, pos)
    }
}

/// A capped cylinder around `self.0`, an axis of length `UNIT`: radius half a
/// unit, and half a unit each way along the axis.
#[derive(Clone, Copy, Debug, PartialEq, Eq)]
pub struct CapCylinder<const N: usize>(pub [i64; N]);

impl<const N: usize> CapCylinder<N> {
    /// The capped cylinder around `axis`, taken as it is.
    pub fn new(axis: [i64; N]) -> (r: Self)
        ensures
            r.0 == axis,
    {
        CapCylinder(axis)
    }
}

impl<const N: usize> Default for CapCylinder<N> {
    /// The capped cylinder around the last axis.
    fn default() -> (r: Self)
        ensures
            N >= 1 ==> r.0@ == unit_axis(N as nat, N - 1),
    {
        if N == 0 {
            CapCylinder([0; N])
        } else {
            CapCylinder(axis(N - 1))
        }
    }
}

impl<const N: usize> Sdf<N> for CapCylinder<N> {
    open spec fn wf(&self) -> bool {
        N <= MAX_DIM && in_range(self.0@)
    }

    open spec fn dist(&self, pos: Seq<i64>) -> int {
        clamp(
            max(capped_length(along(self.0@, pos)), capped_length(across(self.0@, pos)))
                - HALF_UNIT,
        )
    }

    open spec fn inside(&self, pos: Seq<i64>) -> bool {
        self.dist(pos) <= 0
    }

    proof fn lemma_dist_range(&self, pos: Seq<i64>) {
    }

    fn call(&self, pos: [i64; N]) -> (r: i64) {
        let (proj, perp) = split_along(&self.0, &pos);
        let a = length(&proj);
        let b = length(&perp);
        let m = if a >= b {
            a
        } else {
            b
        };
        saturate(m - HALF_UNIT as i128)
    }

    fn hits(&self, pos: [i64; N]) -> (r: bool) {
        self.call(pos) <= 0
    }
}

impl<const N: usize> SdfNoInfo<N> for CapCylinder<N> {

}

impl<const N: usize> SdfGrad<N> for CapCylinder<N> {
    /// The numerical gradient.
    open spec fn grad_at(&self, pos: Seq<i64>) -> Seq<i64> {
        numeric_grad(*self, pos)
    }

    proof fn lemma_grad_range(&self, pos: Seq<i64>) {
        crate::sdf::lemma_normalized(crate::sdf::differences(*self, pos));
    }

    fn call_grad(&self, pos: [i64; N]) -> (r: (i64, [i64; N])) {
        numeric_call_grad(self, pos)
    }
}

/// A plane facing `self.0`, an axis of length `UNIT`, at signed offset
/// `self.1` from the origin along it.
#[derive(Clone, Copy, Debug, PartialEq, Eq)]
pub struct GenericPlane<const N: usize>(pub [i64; N], pub i64);

impl<const N: usize> GenericPlane<N> {
    /// The plane facing `normal`, which is normalized, through `pos`.
    pub fn new(normal: [i64; N], pos: [i64; N]) -> (r: Self)
        requires
            N <= MAX_DIM,
        ensures
            r.0@ == crate::sdf::normalized(normal@),
            r.1 == clamp(dot_spec(r.0@, pos@)),
    {
        let n = normalize(normal);
        GenericPlane(n, saturate(dot(&n, &pos)))
    }
}

impl<const N: usize> Default for GenericPlane<N> {
    /// The plane through the origin facing the last axis.
    fn default() -> (r: Self)
        ensures
            N >= 1 ==> r.0@ == unit_axis(N as nat, N - 1),
            r.1 == 0,
    {
        if N == 0 {
            GenericPlane([0; N], 0)
        } else {
            GenericPlane(axis(N - 1), 0)
        }
    }
}

impl<const N: usize> Sdf<N> for GenericPlane<N> {
    open spec fn wf(&self) -> bool {
        N <= MAX_DIM && in_range(self.0@)
    }

    open spec fn dist(&self, pos: Seq<i64>) -> int {
        clamp(dot_spec(self.0@, pos) - self.1)
    }

    open spec fn inside(&self, pos: Seq<i64>) -> bool {
        self.dist(pos) <= 0
    }

    proof fn lemma_dist_range(&self, pos: Seq<i64>) {
    }

    fn call(&self, pos: [i64; N]) -> (r: i64) {
        saturate(dot(&self.0, &pos) - self.1 as i128)
    }

    fn hits(&self, pos: [i64; N]) -> (r: bool) {
        self.call(pos) <= 0
    }
}

impl<const N: usize> SdfNoInfo<N> for GenericPlane<N> {

}

impl<const N: usize> SdfGrad<N> for GenericPlane<N> {
    /// The normal.
    open spec fn grad_at(&self, pos: Seq<i64>) -> Seq<i64> {
        self.0@
    }

    proof fn lemma_grad_range(&self, pos: Seq<i64>) {
    }

    fn call_grad(&self, pos: [i64; N]) -> (r: (i64, [i64; N])) {
        (self.call(pos), self.0)
    }
}

/// Every primitive is hit exactly where its distance is at most zero; the
/// overrides of `hits` (the sphere's squared-length test, the cube's test of
/// each slab) agree with it through their own contracts.
pub proof fn lemma_primitives_hit_where_not_outside<const N: usize>(
    plane: crate::items::Plane<N>,
    sphere: crate::items::Sphere<N>,
    middle: Middle<N>,
    cube: Cube<N>,
    cuboid: Cuboid<N>,
    cylinder: Cylinder<N>,
    capped: CapCylinder<N>,
    oriented: GenericPlane<N>,
    pos: Seq<i64>,
)
    ensures
        plane.inside(pos) == (plane.dist(pos) <= 0),
        sphere.inside(pos) == (sphere.dist(pos) <= 0),
        middle.inside(pos) == (middle.dist(pos) <= 0),
        cube.inside(pos) == (cube.dist(pos) <= 0),
        cuboid.inside(pos) == (cuboid.dist(pos) <= 0),
        cylinder.inside(pos) == (cylinder.dist(pos) <= 0),
        capped.inside(pos) == (capped.dist(pos) <= 0),
        oriented.inside(pos) == (oriented.dist(pos) <= 0),
{
    crate::items::lemma_plane_inside(plane, pos);
    crate::items::lemma_sphere_inside(sphere, pos);
}

} // verus!
