//! Primitive surfaces.
use crate::fixed::{
    clamp, is_root, isqrt, lemma_root_exists, lemma_root_is, lemma_root_monotone, root, saturate,
    HALF_UNIT, LIMIT, UNIT,
};
use crate::sdf::{normalize, normalized, Sdf, SdfGrad, SdfNoInfo};
use vstd::prelude::*;

verus! {

/// A flat surface through the origin, facing the last axis.
#[derive(Clone, Copy, Debug, Default, PartialEq, Eq)]
pub struct Plane<const N: usize>;

impl<const N: usize> Sdf<N> for Plane<N> {
    open spec fn wf(&self) -> bool {
        N >= 1
    }

    open spec fn dist(&self, pos: Seq<i64>) -> int {
        clamp(pos[N - 1] as int)
    }

    open spec fn inside(&self, pos: Seq<i64>) -> bool {
        self.dist(pos) <= 0
    }

    proof fn lemma_dist_range(&self, pos: Seq<i64>) {
    }

    fn call(&self, pos: [i64; N]) -> (r: i64) {
        saturate(pos[N - 1] as i128)
    }

    fn hits(&self, pos: [i64; N]) -> (r: bool) {
        self.call(pos) <= 0
    }
}

/// On a plane, being inside is having a distance of at most zero.
pub proof fn lemma_plane_inside<const N: usize>(p: Plane<N>, pos: Seq<i64>)
    ensures
        p.inside(pos) == (p.dist(pos) <= 0),
{
}

impl<const N: usize> SdfNoInfo<N> for Plane<N> {

}

impl<const N: usize> SdfGrad<N> for Plane<N> {
    /// The last axis.
    open spec fn grad_at(&self, pos: Seq<i64>) -> Seq<i64> {
        Seq::new(
            N as nat,
            |i: int|
                if i == N - 1 {
                    UNIT
                } else {
                    0i64
                },
        )
    }

    proof fn lemma_grad_range(&self, pos: Seq<i64>) {
    }

    fn call_grad(&self, pos: [i64; N]) -> (r: (i64, [i64; N])) {
        let zeros: [i64; N] = [0; N];
        let mut g = zeros;
        g[N - 1] = UNIT;
        assert forall|i: int| 0 <= i < N implies #[trigger] g@[i] == self.grad_at(pos@)[i] by {
            if i != N - 1 {
                assert(g@[i] == zeros@[i]);
                assert(vstd::array::spec_array_fill_for_copy_type::<i64, N>(0)@[i] == 0);
            } else {
                assert(g@[i] == UNIT);
            }
        }
        assert(g@ =~= self.grad_at(pos@));
        (self.call(pos), g)
    }
}

/// Bound on the sum of squares that a sphere computes with exactly.
pub const SQUARES_CAP: u128 = 0x4000_0000_0000_0000_0000_0000_0000_0000;

/// Sum of the squares of the first `i` coordinates.
pub open spec fn squares(pos: Seq<i64>, i: int) -> int
    decreases i,
{
    if i <= 0 {
        0
    } else {
        squares(pos, i - 1) + pos[i - 1] * pos[i - 1]
    }
}

/// Euclidean length of `pos`, rounded down.
pub open spec fn magnitude(pos: Seq<i64>) -> int {
    root(squares(pos, pos.len() as int))
}

pub proof fn lemma_squares_nonneg(pos: Seq<i64>, i: int)
    ensures
        squares(pos, i) >= 0,
    decreases i,
{
    if i > 0 {
        lemma_squares_nonneg(pos, i - 1);
        let x = pos[i - 1] as int;
        assert(x * x >= 0) by (nonlinear_arith);
    }
}

/// Sum of the squares of the coordinates, saturated at `SQUARES_CAP`.
pub fn capped_squares<const N: usize>(pos: &[i64; N]) -> (r: u128)
    ensures
        r == crate::fixed::min(squares(pos@, N as int), SQUARES_CAP as int),
{
    let mut acc: u128 = 0;
    let mut i: usize = 0;
    while i < N
        invariant
            0 <= i <= N,
            pos@.len() == N,
            acc == crate::fixed::min(squares(pos@, i as int), SQUARES_CAP as int),
        decreases N - i,
    {
        let x = pos[i] as i128;
        assert(0 <= x * x <= 0x4000_0000_0000_0000_0000_0000_0000_0000) by (nonlinear_arith)
            requires
                i64::MIN <= x <= i64::MAX,
        ;
        let sq = (x * x) as u128;
        proof {
            lemma_squares_nonneg(pos@, i as int);
        }
        if acc + sq >= SQUARES_CAP {
            acc = SQUARES_CAP;
        } else {
            acc = acc + sq;
        }
        i = i + 1;
    }
    acc
}

/// A sphere of diameter one length unit, centred on the origin.
#[derive(Clone, Copy, Debug, Default, PartialEq, Eq)]
pub struct Sphere<const N: usize>;

impl<const N: usize> Sdf<N> for Sphere<N> {
    open spec fn wf(&self) -> bool {
        true
    }

    open spec fn dist(&self, pos: Seq<i64>) -> int {
        clamp(magnitude(pos) - HALF_UNIT)
    }

    open spec fn inside(&self, pos: Seq<i64>) -> bool {
        squares(pos, pos.len() as int) < (HALF_UNIT + 1) * (HALF_UNIT + 1)
    }

    proof fn lemma_dist_range(&self, pos: Seq<i64>) {
    }

    fn call(&self, pos: [i64; N]) -> (r: i64) {
        let acc = capped_squares(&pos);
        let m = isqrt(acc);
        proof {
            assert(pos@.len() == N);
            let s = squares(pos@, N as int);
            lemma_squares_nonneg(pos@, N as int);
            lemma_root_exists(s);
            if s >= SQUARES_CAP {
                assert(is_root(SQUARES_CAP as int, 0x8000_0000_0000_0000)) by (nonlinear_arith);
                lemma_root_is(SQUARES_CAP as int, 0x8000_0000_0000_0000);
                lemma_root_monotone(SQUARES_CAP as int, s, m as int, root(s));
            }
        }
        saturate(m as i128 - HALF_UNIT as i128)
    }

    fn hits(&self, pos: [i64; N]) -> (r: bool) {
        capped_squares(&pos) < ((HALF_UNIT + 1) * (HALF_UNIT + 1)) as u128
    }
}

impl<const N: usize> SdfNoInfo<N> for Sphere<N> {

}

impl<const N: usize> SdfGrad<N> for Sphere<N> {
    /// Away from the centre; zero at the centre.
    open spec fn grad_at(&self, pos: Seq<i64>) -> Seq<i64> {
        normalized(pos)
    }

    proof fn lemma_grad_range(&self, pos: Seq<i64>) {
        crate::sdf::lemma_normalized(pos);
    }

    fn call_grad(&self, pos: [i64; N]) -> (r: (i64, [i64; N])) {
        (self.call(pos), normalize(pos))
    }
}

/// On a sphere, being inside is having a distance of at most zero.
pub proof fn lemma_sphere_inside<const N: usize>(s: Sphere<N>, pos: Seq<i64>)
    ensures
        s.inside(pos) == (s.dist(pos) <= 0),
{
    let x = squares(pos, pos.len() as int);
    lemma_squares_nonneg(pos, pos.len() as int);
    lemma_root_exists(x);
    let r = root(x);
    if r <= HALF_UNIT {
        assert(x < (HALF_UNIT + 1) * (HALF_UNIT + 1)) by (nonlinear_arith)
            requires
                x < (r + 1) * (r + 1),
                0 <= r <= HALF_UNIT,
        ;
    } else {
        assert(x >= (HALF_UNIT + 1) * (HALF_UNIT + 1)) by (nonlinear_arith)
            requires
                x >= r * r,
                r >= HALF_UNIT + 1,
        ;
    }
}

} // verus!
