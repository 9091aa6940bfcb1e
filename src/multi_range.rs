//! An inclusive range of multi-indexes walked first axis fastest, which can be
//! split at any position for parallel work.
use crate::multi_dims::{
    all_positive, cells, flat_value, is_valid_index, lemma_low_value_bound, MultiDims,
};
use vstd::prelude::*;

verus! {

/// A value that can be cut in two at a position, the first part holding the
/// positions before it and the second part the rest.
pub trait Splittable: Sized {
    /// `index` is a position at which `self` may be cut.
    spec fn can_split(&self, index: int) -> bool;

    /// `parts` is `self` cut at `index`.
    spec fn is_split(&self, index: int, parts: (Self, Self)) -> bool;

    fn split_at(self, index: usize) -> (r: (Self, Self))
        requires
            self.can_split(index as int),
        ensures
            self.is_split(index as int, r),
    ;
}

/// A splittable sequence handed to parallel workers.
#[derive(Clone, Copy, Debug)]
pub struct ParIter<I>(pub I);

impl<I: Splittable> ParIter<I> {
    /// Cuts the wrapped sequence at `index`.
    pub fn split_at(self, index: usize) -> (r: (Self, Self))
        requires
            self.0.can_split(index as int),
        ensures
            self.0.is_split(index as int, (r.0.0, r.1.0)),
    {
        let (a, b) = self.0.split_at(index);
        (ParIter(a), ParIter(b))
    }
}

/// The multi-indexes from `range.0` to `range.1` inclusive, in flat order;
/// `None` when nothing is left.
#[derive(Clone, Copy, Debug)]
pub struct MultiRangeIter<const N: usize> {
    pub dims: MultiDims<N>,
    pub range: Option<([usize; N], [usize; N])>,
}

/// The grid has a cell, its size fits in a `usize`, and twice each axis does too.
pub open spec fn usable_dims(d: Seq<usize>) -> bool {
    &&& all_positive(d)
    &&& cells(d) <= usize::MAX
    &&& forall|j: int| 0 <= j < d.len() ==> 2 * #[trigger] d[j] <= usize::MAX + 1
}

impl<const N: usize> MultiRangeIter<N> {
    pub open spec fn wf(&self) -> bool {
        &&& usable_dims(self.dims@)
        &&& match self.range {
            None => true,
            Some((s, e)) => {
                &&& is_valid_index(self.dims@, s@)
                &&& is_valid_index(self.dims@, e@)
                &&& flat_value(self.dims@, s@) <= flat_value(self.dims@, e@)
            },
        }
    }

    /// Flat position of the first index left.
    pub open spec fn first(&self) -> int {
        match self.range {
            None => 0,
            Some((s, _)) => flat_value(self.dims@, s@),
        }
    }

    /// Number of indexes left.
    pub open spec fn count(&self) -> int {
        match self.range {
            None => 0,
            Some((s, e)) => flat_value(self.dims@, e@) - flat_value(self.dims@, s@) + 1,
        }
    }

    /// Flat positions of the indexes left, in the order they come.
    pub open spec fn positions(&self) -> Seq<int> {
        Seq::new(self.count() as nat, |k: int| self.first() + k)
    }

    /// Every cell of the grid `dims`, which must have one.
    pub fn new(dims: MultiDims<N>) -> (r: Self)
        requires
            usable_dims(dims@),
        ensures
            r.wf(),
            r.dims == dims,
            r.positions() == Seq::new(cells(dims@) as nat, |k: int| k),
    {
        let start = dims.min();
        let end = dims.max();
        proof {
            crate::multi_dims::lemma_low_value_of_max(dims@, start@, 0);
            assert(flat_value(dims@, start@) == 0) by {
                lemma_low_value_zero(dims@, start@, N as int);
            }
            crate::multi_dims::lemma_weight_positive(dims@, N as int);
        }
        let r = MultiRangeIter { dims, range: Some((start, end)) };
        assert(r.positions() =~= Seq::new(cells(dims@) as nat, |k: int| k));
        r
    }

    /// Whether nothing is left.
    pub fn is_empty(&self) -> (r: bool)
        requires
            self.wf(),
        ensures
            r == (self.count() == 0),
    {
        self.range.is_none()
    }

    /// Number of indexes left.
    pub fn len(&self) -> (r: usize)
        requires
            self.wf(),
        ensures
            r == self.count(),
    {
        match self.range {
            None => 0,
            Some((start, end)) => {
                let gap = self.dims.sub(end, start);
                proof {
                    let d = self.dims@;
                    lemma_low_value_bound(d, end@, N as int);
                    lemma_low_value_bound(d, start@, N as int);
                    vstd::arithmetic::div_mod::lemma_small_mod(
                        (flat_value(d, end@) - flat_value(d, start@)) as nat,
                        cells(d) as nat,
                    );
                }
                self.dims.into_flat(gap) + 1
            },
        }
    }

    /// Takes the first index left.
    pub fn next(&mut self) -> (r: Option<[usize; N]>)
        requires
            old(self).wf(),
        ensures
            final(self).wf(),
            final(self).dims == old(self).dims,
            old(self).count() == 0 ==> r is None && final(self).count() == 0,
            old(self).count() > 0 ==> {
                &&& r matches Some(a)
                &&& is_valid_index(old(self).dims@, a@)
                &&& flat_value(old(self).dims@, a@) == old(self).positions()[0]
                &&& final(self).positions() == old(self).positions().drop_first()
            },
    {
        match self.range {
            None => None,
            Some((start, end)) => {
                let ghost d = self.dims@;
                proof {
                    lemma_low_value_bound(d, end@, N as int);
                }
                let fs = self.dims.into_flat(start);
                let fe = self.dims.into_flat(end);
                if fs == fe {
                    self.range = None;
                } else {
                    let next = self.dims.increment(start);
                    proof {
                        vstd::arithmetic::div_mod::lemma_small_mod(
                            (fs + 1) as nat,
                            cells(d) as nat,
                        );
                    }
                    self.range = Some((next, end));
                }
                assert(self.positions() =~= old(self).positions().drop_first());
                Some(start)
            },
        }
    }

    /// Takes the last index left.
    pub fn next_back(&mut self) -> (r: Option<[usize; N]>)
        requires
            old(self).wf(),
        ensures
            final(self).wf(),
            final(self).dims == old(self).dims,
            old(self).count() == 0 ==> r is None && final(self).count() == 0,
            old(self).count() > 0 ==> {
                &&& r matches Some(a)
                &&& is_valid_index(old(self).dims@, a@)
                &&& flat_value(old(self).dims@, a@) == old(self).positions().last()
                &&& final(self).positions() == old(self).positions().drop_last()
            },
    {
        match self.range {
            None => None,
            Some((start, end)) => {
                let ghost d = self.dims@;
                proof {
                    lemma_low_value_bound(d, end@, N as int);
                }
                let fs = self.dims.into_flat(start);
                let fe = self.dims.into_flat(end);
                if fs == fe {
                    self.range = None;
                } else {
                    let prev = self.dims.decrement(end);
                    proof {
                        vstd::arithmetic::div_mod::lemma_mod_add_multiples_vanish(
                            fe - 1,
                            cells(d),
                        );
                        vstd::arithmetic::div_mod::lemma_small_mod(
                            (fe - 1) as nat,
                            cells(d) as nat,
                        );
                    }
                    self.range = Some((start, prev));
                }
                assert(self.positions() =~= old(self).positions().drop_last());
                Some(end)
            },
        }
    }
}

impl<const N: usize> Splittable for MultiRangeIter<N> {
    open spec fn can_split(&self, index: int) -> bool {
        self.wf() && 0 <= index <= self.count()
    }

    open spec fn is_split(&self, index: int, parts: (Self, Self)) -> bool {
        &&& parts.0.wf()
        &&& parts.1.wf()
        &&& parts.0.dims == self.dims
        &&& parts.1.dims == self.dims
        &&& parts.0.positions() == self.positions().take(index)
        &&& parts.1.positions() == self.positions().skip(index)
    }

    /// The first part holds the first `index` indexes left, the second the rest.
    fn split_at(self, index: usize) -> (r: (Self, Self)) {
        match self.range {
            None => {
                assert(self.positions().take(0) =~= self.positions());
                assert(self.positions().skip(0) =~= self.positions());
                (self, self)
            },
            Some((start, end)) => {
                let ghost d = self.dims@;
                let ghost fs = flat_value(d, start@);
                let ghost fe = flat_value(d, end@);
                let ghost c = cells(d);
                proof {
                    lemma_low_value_bound(d, end@, N as int);
                    lemma_low_value_bound(d, start@, N as int);
                }
                let step = self.dims.from_flat(index);
                let mid = self.dims.add(start, step);
                let len = self.len();
                proof {
                    vstd::arithmetic::div_mod::lemma_add_mod_noop_right(fs, index as int, c);
                    vstd::arithmetic::div_mod::lemma_small_mod(fs as nat, c as nat);
                    assert(flat_value(d, mid@) == (fs + index) % c);
                }
                let first = if index == 0 {
                    MultiRangeIter { dims: self.dims, range: None }
                } else {
                    let last = self.dims.decrement(mid);
                    proof {
                        if fs + index < c {
                            vstd::arithmetic::div_mod::lemma_small_mod(
                                (fs + index) as nat,
                                c as nat,
                            );
                            vstd::arithmetic::div_mod::lemma_mod_add_multiples_vanish(
                                fs + index - 1,
                                c,
                            );
                            vstd::arithmetic::div_mod::lemma_small_mod(
                                (fs + index - 1) as nat,
                                c as nat,
                            );
                        } else {
                            vstd::arithmetic::div_mod::lemma_mod_self_0(c);
                            vstd::arithmetic::div_mod::lemma_small_mod((c - 1) as nat, c as nat);
                        }
                        assert(flat_value(d, last@) == fs + index - 1);
                    }
                    MultiRangeIter { dims: self.dims, range: Some((start, last)) }
                };
                let second = if index == len {
                    MultiRangeIter { dims: self.dims, range: None }
                } else {
                    proof {
                        vstd::arithmetic::div_mod::lemma_small_mod(
                            (fs + index) as nat,
                            c as nat,
                        );
                    }
                    MultiRangeIter { dims: self.dims, range: Some((mid, end)) }
                };
                assert(first.positions() =~= self.positions().take(index as int));
                assert(second.positions() =~= self.positions().skip(index as int));
                (first, second)
            },
        }
    }
}

/// An index of all zeros is at flat position zero.
pub proof fn lemma_low_value_zero(d: Seq<usize>, a: Seq<usize>, i: int)
    requires
        0 <= i <= a.len(),
        forall|j: int| 0 <= j < a.len() ==> #[trigger] a[j] == 0,
    ensures
        crate::multi_dims::low_value(d, a, i) == 0,
    decreases i,
{
    if i > 0 {
        lemma_low_value_zero(d, a, i - 1);
    }
}

} // verus!
