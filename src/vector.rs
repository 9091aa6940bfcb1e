//! Fixed-point vector arithmetic on `[i64; N]`.
use crate::fixed::{floor_div, LIMIT, UNIT};
use crate::sdf::in_range;
use vstd::prelude::*;

verus! {

/// Largest dimension for which dot products are computed exactly.
pub const MAX_DIM: usize = 4096;

/// `sum_{j < i} a[j] * b[j]`.
pub open spec fn dot_sum(a: Seq<i64>, b: Seq<i64>, i: int) -> int
    decreases i,
{
    if i <= 0 {
        0
    } else {
        dot_sum(a, b, i - 1) + a[i - 1] * b[i - 1]
    }
}

/// The fixed-point dot product of `a` and `b`, rounded down.
pub open spec fn dot_spec(a: Seq<i64>, b: Seq<i64>) -> int {
    dot_sum(a, b, a.len() as int) / (UNIT as int)
}

/// The fixed-point dot product of `a` (in the distance range) and `b`.
pub fn dot<const N: usize>(a: &[i64; N], b: &[i64; N]) -> (r: i128)
    requires
        N <= MAX_DIM,
        in_range(a@),
    ensures
        r == dot_spec(a@, b@),
        -0x100_0000_0000_0000_0000_0000_0000_0000 <= r <= 0x100_0000_0000_0000_0000_0000_0000_0000,
{
    let mut acc: i128 = 0;
    let mut i: usize = 0;
    while i < N
        invariant
            0 <= i <= N,
            N <= MAX_DIM,
            a@.len() == N,
            in_range(a@),
            acc == dot_sum(a@, b@, i as int),
            -i * 0x100_0000_0000_0000_0000_0000_0000 <= acc <= i * 0x100_0000_0000_0000_0000_0000_0000,
        decreases N - i,
    {
        let x = a[i] as i128;
        let y = b[i] as i128;
        assert(-0x100_0000_0000_0000_0000_0000_0000 <= x * y <= 0x100_0000_0000_0000_0000_0000_0000)
            by (nonlinear_arith)
            requires
                -LIMIT <= x <= LIMIT,
                i64::MIN <= y <= i64::MAX,
        ;
        acc = acc + x * y;
        i = i + 1;
    }
    let r = floor_div(acc, UNIT as i128);
    proof {
        vstd::arithmetic::div_mod::lemma_div_is_ordered(
            -0x100_0000_0000_0000_0000_0000_0000_0000,
            acc as int,
            UNIT as int,
        );
        vstd::arithmetic::div_mod::lemma_div_is_ordered(
            acc as int,
            0x100_0000_0000_0000_0000_0000_0000_0000,
            UNIT as int,
        );
    }
    r
}

} // verus!
