//! Attaching information to the surfaces of a field.
use crate::sdf::{Sdf, SdfGrad, SdfInfo};
use vstd::prelude::*;

verus! {

/// The child with `self.1` attached to all its surfaces.
#[derive(Clone, Copy, Debug, Default, PartialEq, Eq)]
pub struct WithInfo<T, I>(pub T, pub I);

impl<const N: usize, I, T: Sdf<N>> Sdf<N> for WithInfo<T, I> {
    open spec fn wf(&self) -> bool {
        self.0.wf()
    }

    open spec fn dist(&self, pos: Seq<i64>) -> int {
        self.0.dist(pos)
    }

    open spec fn inside(&self, pos: Seq<i64>) -> bool {
        self.0.inside(pos)
    }

    proof fn lemma_dist_range(&self, pos: Seq<i64>) {
        self.0.lemma_dist_range(pos);
    }

    fn call(&self, pos: [i64; N]) -> (r: i64) {
        self.0.call(pos)
    }

    fn hits(&self, pos: [i64; N]) -> (r: bool) {
        self.0.hits(pos)
    }
}

impl<const N: usize, I: Copy, T: Sdf<N>> SdfInfo<N> for WithInfo<T, I> {
    type Info = I;

    open spec fn info_at(&self, pos: Seq<i64>) -> I {
        self.1
    }

    fn call_info(&self, pos: [i64; N]) -> (r: (i64, I)) {
        (self.0.call(pos), self.1)
    }

    fn info(&self, pos: [i64; N]) -> (r: I) {
        self.1
    }
}

impl<const N: usize, I, T: SdfGrad<N>> SdfGrad<N> for WithInfo<T, I> {
    open spec fn grad_at(&self, pos: Seq<i64>) -> Seq<i64> {
        self.0.grad_at(pos)
    }

    proof fn lemma_grad_range(&self, pos: Seq<i64>) {
        self.0.lemma_grad_range(pos);
    }

    fn call_grad(&self, pos: [i64; N]) -> (r: (i64, [i64; N])) {
        self.0.call_grad(pos)
    }
}

/// Builds fields with attached information.
pub trait SdfWithInfo<const N: usize>: Sdf<N> + Sized {
    /// `self` with `info` attached to all its surfaces.
    fn with<I>(self, info: I) -> (r: WithInfo<Self, I>)
        ensures
            r.0 == self,
            r.1 == info,
    {
        WithInfo(self, info)
    }
}

impl<const N: usize, T: Sdf<N>> SdfWithInfo<N> for T {

}

/// The child with a default-constructed value, `self.1`, attached to all its
/// surfaces.
#[derive(Clone, Copy, Debug, Default, PartialEq, Eq)]
pub struct WithDefault<T, I>(pub T, pub I);

impl<const N: usize, I, T: Sdf<N>> Sdf<N> for WithDefault<T, I> {
    open spec fn wf(&self) -> bool {
        self.0.wf()
    }

    open spec fn dist(&self, pos: Seq<i64>) -> int {
        self.0.dist(pos)
    }

    open spec fn inside(&self, pos: Seq<i64>) -> bool {
        self.0.inside(pos)
    }

    proof fn lemma_dist_range(&self, pos: Seq<i64>) {
        self.0.lemma_dist_range(pos);
    }

    fn call(&self, pos: [i64; N]) -> (r: i64) {
        self.0.call(pos)
    }

    fn hits(&self, pos: [i64; N]) -> (r: bool) {
        self.0.hits(pos)
    }
}

impl<const N: usize, I: Copy, T: Sdf<N>> SdfInfo<N> for WithDefault<T, I> {
    type Info = I;

    open spec fn info_at(&self, pos: Seq<i64>) -> I {
        self.1
    }

    fn call_info(&self, pos: [i64; N]) -> (r: (i64, I)) {
        (self.0.call(pos), self.1)
    }

    fn info(&self, pos: [i64; N]) -> (r: I) {
        self.1
    }
}

impl<const N: usize, I, T: SdfGrad<N>> SdfGrad<N> for WithDefault<T, I> {
    open spec fn grad_at(&self, pos: Seq<i64>) -> Seq<i64> {
        self.0.grad_at(pos)
    }

    proof fn lemma_grad_range(&self, pos: Seq<i64>) {
        self.0.lemma_grad_range(pos);
    }

    fn call_grad(&self, pos: [i64; N]) -> (r: (i64, [i64; N])) {
        self.0.call_grad(pos)
    }
}

/// Builds fields with default information.
pub trait SdfWithDefault<const N: usize>: Sdf<N> + Sized {
    /// `self` with `I::default()` attached to all its surfaces.
    fn with_default<I: Default>(self) -> (r: WithDefault<Self, I>)
        ensures
            r.0 == self,
    {
        WithDefault(self, I::default())
    }
}

impl<const N: usize, T: Sdf<N>> SdfWithDefault<N> for T {

}

} // verus!
