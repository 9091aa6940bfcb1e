//! Mixed-radix arithmetic on multi-dimensional indexes.
//!
//! A `MultiDims` is the shape of a grid, `[0..dims[0], 0..dims[1], ...]`.
//! An index into it is read as a number whose digit `i` has radix `dims[i]`,
//! least significant digit first.
use vstd::arithmetic::div_mod::{
    lemma_div_denominator, lemma_fundamental_div_mod_converse, lemma_mod_breakdown,
};
use vstd::prelude::*;

verus! {

/// Product of the first `i` radixes: the weight of digit `i`.
pub open spec fn weight(d: Seq<usize>, i: int) -> int
    decreases i,
{
    if i <= 0 {
        1
    } else {
        weight(d, i - 1) * d[i - 1] as int
    }
}

/// Number of cells of the grid `d`.
pub open spec fn cells(d: Seq<usize>) -> int {
    weight(d, d.len() as int)
}

/// Value of the lowest `i` digits of `a` under the radixes `d`.
pub open spec fn low_value(d: Seq<usize>, a: Seq<usize>, i: int) -> int
    decreases i,
{
    if i <= 0 {
        0
    } else {
        low_value(d, a, i - 1) + a[i - 1] as int * weight(d, i - 1)
    }
}

/// Flat (row-major, first axis fastest) position of the multi-index `a`.
pub open spec fn flat_value(d: Seq<usize>, a: Seq<usize>) -> int {
    low_value(d, a, d.len() as int)
}

/// Every digit of `a` is below its radix.
pub open spec fn is_valid_index(d: Seq<usize>, a: Seq<usize>) -> bool {
    &&& a.len() == d.len()
    &&& forall|j: int| 0 <= j < d.len() ==> #[trigger] a[j] < d[j]
}

/// No axis of the grid is empty.
pub open spec fn all_positive(d: Seq<usize>) -> bool {
    forall|j: int| 0 <= j < d.len() ==> #[trigger] d[j] > 0
}

/// Digit `i` of the number `x` under the radixes `d`.
pub open spec fn digit(d: Seq<usize>, x: int, i: int) -> int {
    (x / weight(d, i)) % (d[i] as int)
}

pub proof fn lemma_weight_positive(d: Seq<usize>, i: int)
    requires
        all_positive(d),
        0 <= i <= d.len(),
    ensures
        weight(d, i) >= 1,
    decreases i,
{
    if i > 0 {
        lemma_weight_positive(d, i - 1);
        let w = weight(d, i - 1);
        let r = d[i - 1] as int;
        assert(r > 0);
        assert(w * r >= 1) by (nonlinear_arith)
            requires
                w >= 1,
                r >= 1,
        ;
    }
}

pub proof fn lemma_weight_monotone(d: Seq<usize>, i: int, k: int)
    requires
        all_positive(d),
        0 <= i <= k <= d.len(),
    ensures
        weight(d, i) <= weight(d, k),
    decreases k - i,
{
    if i < k {
        lemma_weight_monotone(d, i, k - 1);
        lemma_weight_positive(d, k - 1);
        let w = weight(d, k - 1);
        let r = d[k - 1] as int;
        assert(r > 0);
        assert(w * r >= w) by (nonlinear_arith)
            requires
                w >= 1,
                r >= 1,
        ;
    }
}

/// The lowest `i` digits of a valid index stay below the weight of digit `i`.
pub proof fn lemma_low_value_bound(d: Seq<usize>, a: Seq<usize>, i: int)
    requires
        is_valid_index(d, a),
        0 <= i <= d.len(),
    ensures
        0 <= low_value(d, a, i) < weight(d, i),
    decreases i,
{
    if i > 0 {
        lemma_low_value_bound(d, a, i - 1);
        let w = weight(d, i - 1);
        let l = low_value(d, a, i - 1);
        let x = a[i - 1] as int;
        let r = d[i - 1] as int;
        assert(x < r);
        assert(l + x * w < w * r) by (nonlinear_arith)
            requires
                0 <= l < w,
                0 <= x < r,
        ;
        assert(0 <= x * w) by (nonlinear_arith)
            requires
                0 <= x,
                0 <= w,
        ;
    }
}

/// Low values only depend on the digits below `i`.
pub proof fn lemma_low_value_prefix(d: Seq<usize>, a: Seq<usize>, b: Seq<usize>, i: int)
    requires
        0 <= i,
        forall|j: int| 0 <= j < i ==> a[j] == b[j],
    ensures
        low_value(d, a, i) == low_value(d, b, i),
    decreases i,
{
    if i > 0 {
        lemma_low_value_prefix(d, a, b, i - 1);
    }
}

/// A number `x` in `[0, m)` that differs from `v` by a multiple of `m` is `v % m`.
pub proof fn lemma_mod_of_shift(v: int, x: int, q: int, m: int)
    requires
        0 <= x < m,
        v == x + q * m,
    ensures
        x == v % m,
{
    lemma_fundamental_div_mod_converse(v, m, q, x);
}

/// The lowest `i` digits of `a` all at their largest value.
pub proof fn lemma_low_value_of_max(d: Seq<usize>, a: Seq<usize>, i: int)
    requires
        0 <= i <= d.len(),
        a.len() == d.len(),
        forall|j: int| 0 <= j < i ==> a[j] as int == d[j] as int - 1,
    ensures
        low_value(d, a, i) == weight(d, i) - 1,
    decreases i,
{
    if i > 0 {
        lemma_low_value_of_max(d, a, i - 1);
        let w = weight(d, i - 1);
        let r = d[i - 1] as int;
        assert((r - 1) * w == w * r - w) by (nonlinear_arith);
    }
}

/// The shape of a grid: axis `i` holds the positions `0..self.0[i]`.
#[derive(Clone, Copy, Debug, PartialEq, Eq)]
pub struct MultiDims<const N: usize>(pub [usize; N]);

impl<const N: usize> View for MultiDims<N> {
    type V = Seq<usize>;

    open spec fn view(&self) -> Seq<usize> {
        self.0@
    }
}

impl<const N: usize> MultiDims<N> {
    /// Every prefix product of the axes fits in a `usize`.
    pub open spec fn fits(&self) -> bool {
        forall|i: int| 0 <= i <= N ==> #[trigger] weight(self@, i) <= usize::MAX
    }

    /// Flat position of a multi-index, first axis fastest.
    pub fn into_flat(&self, idx: [usize; N]) -> (r: usize)
        requires
            is_valid_index(self@, idx@),
            cells(self@) <= usize::MAX,
        ensures
            r == flat_value(self@, idx@),
    {
        let ghost d = self@;
        assert(all_positive(d)) by {
            assert forall|j: int| 0 <= j < d.len() implies #[trigger] d[j] > 0 by {
                assert(idx@[j] < d[j]);
            }
        }
        let mut flat: usize = 0;
        let mut mult: usize = 1;
        let mut i: usize = 0;
        while i < N
            invariant
                0 <= i <= N,
                d == self@,
                d.len() == N,
                is_valid_index(d, idx@),
                all_positive(d),
                cells(d) <= usize::MAX,
                flat == low_value(d, idx@, i as int),
                mult == weight(d, i as int),
            decreases N - i,
        {
            proof {
                lemma_low_value_bound(d, idx@, i + 1);
                lemma_weight_monotone(d, i + 1, N as int);
                lemma_weight_positive(d, i as int);
            }
            flat = flat + idx[i] * mult;
            mult = mult * self.0[i];
            i = i + 1;
        }
        flat
    }

    /// The multi-index of a flat position, first axis fastest; positions past
    /// the end wrap around.
    pub fn from_flat(&self, idx: usize) -> (r: [usize; N])
        requires
            all_positive(self@),
        ensures
            is_valid_index(self@, r@),
            forall|i: int| 0 <= i < N ==> r@[i] as int == #[trigger] digit(self@, idx as int, i),
            flat_value(self@, r@) == idx as int % cells(self@),
    {
        let ghost d = self@;
        let ghost x = idx as int;
        let mut r: [usize; N] = [0; N];
        let mut cur: usize = idx;
        let mut i: usize = 0;
        proof {
            assert(x % 1 == 0);
        }
        while i < N
            invariant
                0 <= i <= N,
                d == self@,
                d.len() == N,
                all_positive(d),
                x == idx as int,
                cur as int == x / weight(d, i as int),
                low_value(d, r@, i as int) == x % weight(d, i as int),
                forall|j: int| 0 <= j < i ==> r@[j] as int == #[trigger] digit(d, x, j),
                forall|j: int| 0 <= j < i ==> #[trigger] r@[j] < d[j],
            decreases N - i,
        {
            let ghost old_r = r@;
            let ghost w = weight(d, i as int);
            let dim = self.0[i];
            proof {
                lemma_weight_positive(d, i as int);
                assert(dim > 0);
            }
            r[i] = cur % dim;
            cur = cur / dim;
            proof {
                lemma_div_denominator(x, w, dim as int);
                lemma_mod_breakdown(x, w, dim as int);
                lemma_low_value_prefix(d, r@, old_r, i as int);
                assert(weight(d, i + 1) == w * dim);
                assert(r@[i as int] as int * w == w * ((x / w) % (dim as int))) by (nonlinear_arith)
                    requires
                        r@[i as int] as int == (x / w) % (dim as int),
                ;
                assert forall|j: int| 0 <= j < i + 1 implies r@[j] as int == #[trigger] digit(d, x, j) by {
                    if j < i {
                        assert(r@[j] == old_r[j]);
                    }
                }
                assert forall|j: int| 0 <= j < i + 1 implies #[trigger] r@[j] < d[j] by {
                    if j < i {
                        assert(r@[j] == old_r[j]);
                    }
                }
            }
            i = i + 1;
        }
        r
    }

    /// Number of cells of the grid.
    pub fn len(&self) -> (r: usize)
        requires
            self.fits(),
        ensures
            r == cells(self@),
    {
        let mut p: usize = 1;
        let mut i: usize = 0;
        while i < N
            invariant
                0 <= i <= N,
                self.fits(),
                self@.len() == N,
                p == weight(self@, i as int),
            decreases N - i,
        {
            assert(weight(self@, i + 1) <= usize::MAX);
            p = p * self.0[i];
            i = i + 1;
        }
        p
    }

    /// Whether the grid has no cell, that is whether some axis is empty.
    pub fn is_empty(&self) -> (r: bool)
        ensures
            r == !all_positive(self@),
    {
        let mut i: usize = 0;
        while i < N
            invariant
                0 <= i <= N,
                self@.len() == N,
                forall|j: int| 0 <= j < i ==> #[trigger] self@[j] > 0,
            decreases N - i,
        {
            if self.0[i] == 0 {
                return true;
            }
            i = i + 1;
        }
        false
    }

    /// The smallest index of the grid: all zeros.
    pub fn min(&self) -> (r: [usize; N])
        ensures
            forall|i: int| 0 <= i < N ==> #[trigger] r@[i] == 0,
    {
        [0; N]
    }

    /// The largest index of the grid: each axis at its last position.
    pub fn max(&self) -> (r: [usize; N])
        requires
            all_positive(self@),
        ensures
            is_valid_index(self@, r@),
            forall|i: int| 0 <= i < N ==> #[trigger] r@[i] == self@[i] - 1,
            flat_value(self@, r@) == cells(self@) - 1,
    {
        let mut r: [usize; N] = [0; N];
        let mut i: usize = 0;
        while i < N
            invariant
                0 <= i <= N,
                self@.len() == N,
                all_positive(self@),
                forall|j: int| 0 <= j < i ==> #[trigger] r@[j] == self@[j] - 1,
            decreases N - i,
        {
            assert(self@[i as int] > 0);
            r[i] = self.0[i] - 1;
            i = i + 1;
        }
        proof {
            lemma_low_value_of_max(self@, r@, N as int);
        }
        r
    }

    /// The next index, first axis fastest; the last index wraps to the first.
    pub fn increment(&self, idx: [usize; N]) -> (r: [usize; N])
        requires
            is_valid_index(self@, idx@),
        ensures
            is_valid_index(self@, r@),
            flat_value(self@, r@) == (flat_value(self@, idx@) + 1) % cells(self@),
    {
        let ghost d = self@;
        let mut r = idx;
        let mut carry: usize = 1;
        let mut i: usize = 0;
        while i < N
            invariant
                0 <= i <= N,
                d == self@,
                d.len() == N,
                is_valid_index(d, idx@),
                is_valid_index(d, r@),
                carry <= 1,
                forall|j: int| i <= j < N ==> #[trigger] r@[j] == idx@[j],
                low_value(d, r@, i as int) + carry * weight(d, i as int) == low_value(
                    d,
                    idx@,
                    i as int,
                ) + 1,
            decreases N - i,
        {
            let ghost old_r = r@;
            let ghost w = weight(d, i as int);
            let ghost x = idx@[i as int] as int;
            let dim = self.0[i];
            if carry == 1 {
                if r[i] + 1 < dim {
                    r[i] = r[i] + 1;
                    carry = 0;
                } else {
                    r[i] = 0;
                    proof {
                        assert((x + 1) * w == x * w + w) by (nonlinear_arith);
                        assert(w * dim == x * w + w) by (nonlinear_arith)
                            requires
                                x + 1 == dim,
                        ;
                    }
                }
            }
            proof {
                lemma_low_value_prefix(d, r@, old_r, i as int);
                assert((x + 1) * w == x * w + w) by (nonlinear_arith);
                assert(weight(d, i + 1) == w * dim);
            }
            i = i + 1;
        }
        proof {
            lemma_low_value_bound(d, r@, N as int);
            lemma_low_value_bound(d, idx@, N as int);
            lemma_mod_of_shift(flat_value(d, idx@) + 1, flat_value(d, r@), carry as int, cells(d));
        }
        r
    }

    /// The previous index, first axis fastest; the first index wraps to the last.
    pub fn decrement(&self, idx: [usize; N]) -> (r: [usize; N])
        requires
            is_valid_index(self@, idx@),
        ensures
            is_valid_index(self@, r@),
            flat_value(self@, r@) == (flat_value(self@, idx@) + cells(self@) - 1) % cells(
                self@,
            ),
    {
        let ghost d = self@;
        let mut r = idx;
        let mut borrow: usize = 1;
        let mut i: usize = 0;
        while i < N
            invariant
                0 <= i <= N,
                d == self@,
                d.len() == N,
                is_valid_index(d, idx@),
                is_valid_index(d, r@),
                borrow <= 1,
                forall|j: int| i <= j < N ==> #[trigger] r@[j] == idx@[j],
                low_value(d, r@, i as int) == low_value(d, idx@, i as int) - 1 + borrow * weight(
                    d,
                    i as int,
                ),
            decreases N - i,
        {
            let ghost old_r = r@;
            let ghost w = weight(d, i as int);
            let ghost x = idx@[i as int] as int;
            let dim = self.0[i];
            if borrow == 1 {
                if r[i] > 0 {
                    r[i] = r[i] - 1;
                    borrow = 0;
                    proof {
                        lemma_low_value_prefix(d, r@, old_r, i as int);
                        assert((x - 1) * w == x * w - w) by (nonlinear_arith);
                    }
                } else {
                    r[i] = dim - 1;
                    proof {
                        lemma_low_value_prefix(d, r@, old_r, i as int);
                        assert((dim - 1) * w == w * dim - w) by (nonlinear_arith);
                        assert(x * w == 0) by (nonlinear_arith)
                            requires
                                x == 0,
                        ;
                        assert(weight(d, i + 1) == w * dim);
                    }
                }
            } else {
                proof {
                    lemma_low_value_prefix(d, r@, old_r, i as int);
                }
            }
            i = i + 1;
        }
        proof {
            lemma_low_value_bound(d, r@, N as int);
            lemma_low_value_bound(d, idx@, N as int);
            assert((1 - borrow as int) * cells(d) == cells(d) - borrow * cells(d))
                by (nonlinear_arith);
            lemma_mod_of_shift(
                flat_value(d, idx@) + cells(d) - 1,
                flat_value(d, r@),
                1 - borrow as int,
                cells(d),
            );
        }
        r
    }

    /// Adds two multi-indexes digit by digit, least significant first, without
    /// going through flat positions; the sum wraps around the grid.
    pub fn add(&self, lhs: [usize; N], rhs: [usize; N]) -> (r: [usize; N])
        requires
            is_valid_index(self@, lhs@),
            is_valid_index(self@, rhs@),
            forall|j: int| 0 <= j < N ==> 2 * #[trigger] self@[j] <= usize::MAX + 1,
        ensures
            is_valid_index(self@, r@),
            flat_value(self@, r@) == (flat_value(self@, lhs@) + flat_value(self@, rhs@)) % cells(
                self@,
            ),
    {
        let ghost d = self@;
        let mut r: [usize; N] = [0; N];
        let mut carry: usize = 0;
        let mut i: usize = 0;
        while i < N
            invariant
                0 <= i <= N,
                d == self@,
                d.len() == N,
                is_valid_index(d, lhs@),
                is_valid_index(d, rhs@),
                forall|j: int| 0 <= j < N ==> 2 * #[trigger] d[j] <= usize::MAX + 1,
                forall|j: int| 0 <= j < i ==> #[trigger] r@[j] < d[j],
                carry <= 1,
                low_value(d, r@, i as int) + carry * weight(d, i as int) == low_value(
                    d,
                    lhs@,
                    i as int,
                ) + low_value(d, rhs@, i as int),
            decreases N - i,
        {
            let ghost old_r = r@;
            let ghost old_carry = carry as int;
            let ghost w = weight(d, i as int);
            let dim = self.0[i];
            let sum = lhs[i] + rhs[i] + carry;
            r[i] = sum % dim;
            carry = sum / dim;
            proof {
                lemma_low_value_prefix(d, r@, old_r, i as int);
                let q = carry as int;
                let m = r@[i as int] as int;
                vstd::arithmetic::div_mod::lemma_fundamental_div_mod(sum as int, dim as int);
                assert(sum == q * dim + m) by (nonlinear_arith)
                    requires
                        sum == dim * q + m,
                ;
                assert(q <= 1) by (nonlinear_arith)
                    requires
                        sum == q * dim + m,
                        0 <= m,
                        sum < 2 * dim,
                ;
                assert(m * w + q * (w * dim) == sum * w) by (nonlinear_arith)
                    requires
                        sum == q * dim + m,
                ;
                assert(sum * w == lhs@[i as int] * w + rhs@[i as int] * w + old_carry * w)
                    by (nonlinear_arith)
                    requires
                        sum == lhs@[i as int] + rhs@[i as int] + old_carry,
                ;
                assert(weight(d, i + 1) == w * dim);
                assert forall|j: int| 0 <= j < i + 1 implies #[trigger] r@[j] < d[j] by {
                    if j < i {
                        assert(r@[j] == old_r[j]);
                    }
                }
            }
            i = i + 1;
        }
        proof {
            lemma_low_value_bound(d, r@, N as int);
            lemma_mod_of_shift(
                flat_value(d, lhs@) + flat_value(d, rhs@),
                flat_value(d, r@),
                carry as int,
                cells(d),
            );
        }
        r
    }

    /// Subtracts `rhs` from `lhs` digit by digit, least significant first,
    /// without going through flat positions; the difference wraps around the
    /// grid.
    pub fn sub(&self, lhs: [usize; N], rhs: [usize; N]) -> (r: [usize; N])
        requires
            is_valid_index(self@, lhs@),
            is_valid_index(self@, rhs@),
        ensures
            is_valid_index(self@, r@),
            flat_value(self@, r@) == (flat_value(self@, lhs@) - flat_value(self@, rhs@)) % cells(
                self@,
            ),
    {
        let ghost d = self@;
        let mut r: [usize; N] = [0; N];
        let mut borrow: usize = 0;
        let mut i: usize = 0;
        while i < N
            invariant
                0 <= i <= N,
                d == self@,
                d.len() == N,
                is_valid_index(d, lhs@),
                is_valid_index(d, rhs@),
                forall|j: int| 0 <= j < i ==> #[trigger] r@[j] < d[j],
                borrow <= 1,
                low_value(d, r@, i as int) - borrow * weight(d, i as int) == low_value(
                    d,
                    lhs@,
                    i as int,
                ) - low_value(d, rhs@, i as int),
            decreases N - i,
        {
            let ghost old_r = r@;
            let ghost old_borrow = borrow as int;
            let ghost w = weight(d, i as int);
            let dim = self.0[i];
            let l = lhs[i];
            let t = rhs[i] + borrow;
            if l >= t {
                r[i] = l - t;
                borrow = 0;
            } else {
                r[i] = dim - (t - l);
                borrow = 1;
            }
            proof {
                lemma_low_value_prefix(d, r@, old_r, i as int);
                let b = borrow as int;
                let m = r@[i as int] as int;
                assert(m == l - t + b * dim);
                assert(m * w - b * (w * dim) == (l - rhs@[i as int] - old_borrow) * w)
                    by (nonlinear_arith)
                    requires
                        m == l - t + b * dim,
                        t == rhs@[i as int] + old_borrow,
                ;
                assert((l - rhs@[i as int] - old_borrow) * w == l * w - rhs@[i as int] * w
                    - old_borrow * w) by (nonlinear_arith);
                assert(weight(d, i + 1) == w * dim);
                assert forall|j: int| 0 <= j < i + 1 implies #[trigger] r@[j] < d[j] by {
                    if j < i {
                        assert(r@[j] == old_r[j]);
                    }
                }
            }
            i = i + 1;
        }
        proof {
            lemma_low_value_bound(d, r@, N as int);
            assert((-(borrow as int)) * cells(d) == -(borrow * cells(d))) by (nonlinear_arith);
            lemma_mod_of_shift(
                flat_value(d, lhs@) - flat_value(d, rhs@),
                flat_value(d, r@),
                -(borrow as int),
                cells(d),
            );
        }
        r
    }
}

} // verus!
