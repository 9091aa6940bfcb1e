//! Boolean combinations of fields: union, intersection, removal, inversion.
use crate::fixed::{max, min};
use crate::sdf::{negate, negated, Sdf, SdfGrad, SdfInfo};
use vstd::prelude::*;

verus! {

/// Everything inside either child.
#[derive(Clone, Copy, Debug, Default, PartialEq, Eq)]
pub struct Union<T, U>(pub T, pub U);

impl<const N: usize, T: Sdf<N>, U: Sdf<N>> Sdf<N> for Union<T, U> {
    open spec fn wf(&self) -> bool {
        self.0.wf() && self.1.wf()
    }

    open spec fn dist(&self, pos: Seq<i64>) -> int {
        min(self.0.dist(pos), self.1.dist(pos))
    }

    open spec fn inside(&self, pos: Seq<i64>) -> bool {
        self.0.inside(pos) || self.1.inside(pos)
    }

    proof fn lemma_dist_range(&self, pos: Seq<i64>) {
        self.0.lemma_dist_range(pos);
        self.1.lemma_dist_range(pos);
    }

    fn call(&self, pos: [i64; N]) -> (r: i64) {
        let a = self.0.call(pos);
        let b = self.1.call(pos);
        if a <= b {
            a
        } else {
            b
        }
    }

    /// Tests the first child first, and the second only when the first misses.
    fn hits(&self, pos: [i64; N]) -> (r: bool) {
        self.0.hits(pos) || self.1.hits(pos)
    }
}

impl<const N: usize, T: SdfInfo<N>, U: SdfInfo<N, Info = T::Info>> SdfInfo<N> for Union<T, U> {
    type Info = T::Info;

    /// The information of the nearer child; the first one on a tie.
    open spec fn info_at(&self, pos: Seq<i64>) -> T::Info {
        if self.0.dist(pos) <= self.1.dist(pos) {
            self.0.info_at(pos)
        } else {
            self.1.info_at(pos)
        }
    }

    fn call_info(&self, pos: [i64; N]) -> (r: (i64, T::Info)) {
        let (a, info_a) = self.0.call_info(pos);
        let (b, info_b) = self.1.call_info(pos);
        if a <= b {
            (a, info_a)
        } else {
            (b, info_b)
        }
    }
}

impl<const N: usize, T: SdfGrad<N>, U: SdfGrad<N>> SdfGrad<N> for Union<T, U> {
    /// The gradient of the nearer child; the first one on a tie.
    open spec fn grad_at(&self, pos: Seq<i64>) -> Seq<i64> {
        if self.0.dist(pos) <= self.1.dist(pos) {
            self.0.grad_at(pos)
        } else {
            self.1.grad_at(pos)
        }
    }

    proof fn lemma_grad_range(&self, pos: Seq<i64>) {
        self.0.lemma_grad_range(pos);
        self.1.lemma_grad_range(pos);
    }

    fn call_grad(&self, pos: [i64; N]) -> (r: (i64, [i64; N])) {
        let (a, grad_a) = self.0.call_grad(pos);
        let (b, grad_b) = self.1.call_grad(pos);
        if a <= b {
            (a, grad_a)
        } else {
            (b, grad_b)
        }
    }
}

/// Builds unions.
pub trait SdfUnion<const N: usize>: Sdf<N> + Sized {
    /// Everything inside `self` or `other`.
    fn or<S: Sdf<N>>(self, other: S) -> (r: Union<Self, S>)
        ensures
            r.0 == self,
            r.1 == other,
    {
        Union(self, other)
    }
}

impl<const N: usize, T: Sdf<N>> SdfUnion<N> for T {

}

/// Everything inside both children.
#[derive(Clone, Copy, Debug, Default, PartialEq, Eq)]
pub struct Intersect<T, U>(pub T, pub U);

impl<const N: usize, T: Sdf<N>, U: Sdf<N>> Sdf<N> for Intersect<T, U> {
    open spec fn wf(&self) -> bool {
        self.0.wf() && self.1.wf()
    }

    open spec fn dist(&self, pos: Seq<i64>) -> int {
        max(self.0.dist(pos), self.1.dist(pos))
    }

    open spec fn inside(&self, pos: Seq<i64>) -> bool {
        self.0.inside(pos) && self.1.inside(pos)
    }

    proof fn lemma_dist_range(&self, pos: Seq<i64>) {
        self.0.lemma_dist_range(pos);
        self.1.lemma_dist_range(pos);
    }

    fn call(&self, pos: [i64; N]) -> (r: i64) {
        let a = self.0.call(pos);
        let b = self.1.call(pos);
        if a >= b {
            a
        } else {
            b
        }
    }

    /// Tests the first child first, and the second only when the first hits.
    fn hits(&self, pos: [i64; N]) -> (r: bool) {
        self.0.hits(pos) && self.1.hits(pos)
    }
}

impl<const N: usize, T: SdfInfo<N>, U: SdfInfo<N, Info = T::Info>> SdfInfo<N> for Intersect<
    T,
    U,
> {
    type Info = T::Info;

    /// The information of the farther child; the first one on a tie.
    open spec fn info_at(&self, pos: Seq<i64>) -> T::Info {
        if self.0.dist(pos) >= self.1.dist(pos) {
            self.0.info_at(pos)
        } else {
            self.1.info_at(pos)
        }
    }

    fn call_info(&self, pos: [i64; N]) -> (r: (i64, T::Info)) {
        let (a, info_a) = self.0.call_info(pos);
        let (b, info_b) = self.1.call_info(pos);
        if a >= b {
            (a, info_a)
        } else {
            (b, info_b)
        }
    }
}

impl<const N: usize, T: SdfGrad<N>, U: SdfGrad<N>> SdfGrad<N> for Intersect<T, U> {
    /// The gradient of the farther child; the first one on a tie.
    open spec fn grad_at(&self, pos: Seq<i64>) -> Seq<i64> {
        if self.0.dist(pos) >= self.1.dist(pos) {
            self.0.grad_at(pos)
        } else {
            self.1.grad_at(pos)
        }
    }

    proof fn lemma_grad_range(&self, pos: Seq<i64>) {
        self.0.lemma_grad_range(pos);
        self.1.lemma_grad_range(pos);
    }

    fn call_grad(&self, pos: [i64; N]) -> (r: (i64, [i64; N])) {
        let (a, grad_a) = self.0.call_grad(pos);
        let (b, grad_b) = self.1.call_grad(pos);
        if a >= b {
            (a, grad_a)
        } else {
            (b, grad_b)
        }
    }
}

/// Builds intersections.
pub trait SdfIntersect<const N: usize>: Sdf<N> + Sized {
    /// Everything inside both `self` and `other`.
    fn and<S: Sdf<N>>(self, other: S) -> (r: Intersect<Self, S>)
        ensures
            r.0 == self,
            r.1 == other,
    {
        Intersect(self, other)
    }
}

impl<const N: usize, T: Sdf<N>> SdfIntersect<N> for T {

}

/// Everything inside the first child and outside the second.
#[derive(Clone, Copy, Debug, Default, PartialEq, Eq)]
pub struct Remove<T, U>(pub T, pub U);

impl<const N: usize, T: Sdf<N>, U: Sdf<N>> Sdf<N> for Remove<T, U> {
    open spec fn wf(&self) -> bool {
        self.0.wf() && self.1.wf()
    }

    open spec fn dist(&self, pos: Seq<i64>) -> int {
        max(self.0.dist(pos), -self.1.dist(pos))
    }

    open spec fn inside(&self, pos: Seq<i64>) -> bool {
        self.0.inside(pos) && !self.1.inside(pos)
    }

    proof fn lemma_dist_range(&self, pos: Seq<i64>) {
        self.0.lemma_dist_range(pos);
        self.1.lemma_dist_range(pos);
    }

    fn call(&self, pos: [i64; N]) -> (r: i64) {
        let a = self.0.call(pos);
        let b = self.1.call(pos);
        proof {
            assert(pos@.len() == N);
            self.1.lemma_dist_range(pos@);
        }
        if a >= -b {
            a
        } else {
            -b
        }
    }

    /// Tests the first child first, and the second only when the first hits.
    fn hits(&self, pos: [i64; N]) -> (r: bool) {
        self.0.hits(pos) && !self.1.hits(pos)
    }
}

impl<const N: usize, T: SdfInfo<N>, U: SdfInfo<N, Info = T::Info>> SdfInfo<N> for Remove<T, U> {
    type Info = T::Info;

    /// The information of the first child where it bounds the result, else
    /// that of the (inverted) second.
    open spec fn info_at(&self, pos: Seq<i64>) -> T::Info {
        if self.0.dist(pos) > -self.1.dist(pos) {
            self.0.info_at(pos)
        } else {
            self.1.info_at(pos)
        }
    }

    fn call_info(&self, pos: [i64; N]) -> (r: (i64, T::Info)) {
        let (a, info_a) = self.0.call_info(pos);
        let (b, info_b) = self.1.call_info(pos);
        proof {
            assert(pos@.len() == N);
            self.1.lemma_dist_range(pos@);
        }
        if a > -b {
            (a, info_a)
        } else {
            (-b, info_b)
        }
    }
}

impl<const N: usize, T: SdfGrad<N>, U: SdfGrad<N>> SdfGrad<N> for Remove<T, U> {
    /// The gradient of the first child where it bounds the result, else the
    /// reversed gradient of the second.
    open spec fn grad_at(&self, pos: Seq<i64>) -> Seq<i64> {
        if self.0.dist(pos) > -self.1.dist(pos) {
            self.0.grad_at(pos)
        } else {
            negated(self.1.grad_at(pos))
        }
    }

    proof fn lemma_grad_range(&self, pos: Seq<i64>) {
        self.0.lemma_grad_range(pos);
        self.1.lemma_grad_range(pos);
    }

    fn call_grad(&self, pos: [i64; N]) -> (r: (i64, [i64; N])) {
        let (a, grad_a) = self.0.call_grad(pos);
        let (b, grad_b) = self.1.call_grad(pos);
        proof {
            assert(pos@.len() == N);
            self.1.lemma_dist_range(pos@);
            self.1.lemma_grad_range(pos@);
        }
        if a > -b {
            (a, grad_a)
        } else {
            (-b, negate(grad_b))
        }
    }
}

/// Builds removals.
pub trait SdfRemove<const N: usize>: Sdf<N> + Sized {
    /// Everything inside `self` and outside `other`.
    fn or<S: Sdf<N>>(self, other: S) -> (r: Remove<Self, S>)
        ensures
            r.0 == self,
            r.1 == other,
    {
        Remove(self, other)
    }
}

impl<const N: usize, T: Sdf<N>> SdfRemove<N> for T {

}

/// Inside and outside swapped.
#[derive(Clone, Copy, Debug, Default, PartialEq, Eq)]
pub struct Invert<T>(pub T);

impl<const N: usize, T: Sdf<N>> Sdf<N> for Invert<T> {
    open spec fn wf(&self) -> bool {
        self.0.wf()
    }

    open spec fn dist(&self, pos: Seq<i64>) -> int {
        -self.0.dist(pos)
    }

    open spec fn inside(&self, pos: Seq<i64>) -> bool {
        !self.0.inside(pos)
    }

    proof fn lemma_dist_range(&self, pos: Seq<i64>) {
        self.0.lemma_dist_range(pos);
    }

    fn call(&self, pos: [i64; N]) -> (r: i64) {
        let a = self.0.call(pos);
        proof {
            assert(pos@.len() == N);
            self.0.lemma_dist_range(pos@);
        }
        -a
    }

    fn hits(&self, pos: [i64; N]) -> (r: bool) {
        !self.0.hits(pos)
    }
}

impl<const N: usize, T: SdfInfo<N>> SdfInfo<N> for Invert<T> {
    type Info = T::Info;

    open spec fn info_at(&self, pos: Seq<i64>) -> T::Info {
        self.0.info_at(pos)
    }

    fn call_info(&self, pos: [i64; N]) -> (r: (i64, T::Info)) {
        let (a, info) = self.0.call_info(pos);
        proof {
            assert(pos@.len() == N);
            self.0.lemma_dist_range(pos@);
        }
        (-a, info)
    }
}

impl<const N: usize, T: SdfGrad<N>> SdfGrad<N> for Invert<T> {
    /// The child's gradient reversed.
    open spec fn grad_at(&self, pos: Seq<i64>) -> Seq<i64> {
        negated(self.0.grad_at(pos))
    }

    proof fn lemma_grad_range(&self, pos: Seq<i64>) {
        self.0.lemma_grad_range(pos);
    }

    fn call_grad(&self, pos: [i64; N]) -> (r: (i64, [i64; N])) {
        let (a, grad) = self.0.call_grad(pos);
        proof {
            assert(pos@.len() == N);
            self.0.lemma_dist_range(pos@);
            self.0.lemma_grad_range(pos@);
        }
        (-a, negate(grad))
    }
}

/// Builds inversions.
pub trait SdfInvert<const N: usize>: Sdf<N> + Sized {
    /// `self` with inside and outside swapped.
    fn not(self) -> (r: Invert<Self>)
        ensures
            r.0 == self,
    {
        Invert(self)
    }
}

impl<const N: usize, T: Sdf<N>> SdfInvert<N> for T {

}

/// Inverting twice gives back the distance and the inside test of the field.
pub proof fn lemma_double_invert<const N: usize, T: Sdf<N>>(s: T, pos: Seq<i64>)
    ensures
        Invert(Invert(s)).dist(pos) == s.dist(pos),
        Invert(Invert(s)).inside(pos) == s.inside(pos),
        Invert(Invert(s)).wf() == s.wf(),
{
}

} // verus!
