//! Turning the outcome of a march into an output value.
use crate::fixed::{clamp_coord, saturate_coord, LIMIT, UNIT};
use crate::marcher::{advanced, MarchError};
use crate::sdf::{SdfGrad, SdfInfo};
use vstd::prelude::*;

verus! {

/// Paints a hit with the information attached to the surface hit, and a miss
/// with the background.
#[derive(Clone, Copy, Debug, PartialEq, Eq)]
pub struct Solid<C> {
    pub background: C,
}

impl<C: Copy> Solid<C> {
    pub fn render<const N: usize, S: SdfInfo<N, Info = C>>(
        &self,
        model: &S,
        hit: Result<[i64; N], MarchError>,
    ) -> (r: C)
        requires
            model.wf(),
        ensures
            r == match hit {
                Ok(pos) => model.info_at(pos@),
                Err(_) => self.background,
            },
    {
        match hit {
            Ok(pos) => model.info(pos),
            Err(_) => self.background,
        }
    }
}

/// Approximates ambient occlusion: samples the field along the surface
/// normal at `num_iters` growing offsets of `step_size` and sums how far each
/// sample falls short of its offset, squared and divided by its rank.
#[derive(Clone, Copy, Debug, PartialEq, Eq)]
pub struct Occlusion {
    pub num_iters: usize,
    pub step_size: i64,
}

/// The penalty of sample `i`: with offset `o = i * step`, `(o - d)^2 / (i * UNIT)`
/// where `d` is the distance at `pos + o * normal`.
pub open spec fn occlusion_term<const N: usize, S: SdfGrad<N>>(
    model: S,
    pos: Seq<i64>,
    normal: Seq<i64>,
    step: int,
    i: int,
) -> int {
    let offset = i * step;
    let short = offset - model.dist(advanced(pos, normal, offset));
    (short * short) / (i * UNIT)
}

/// The sum of the penalties of samples `1..=n`.
pub open spec fn occlusion_sum<const N: usize, S: SdfGrad<N>>(
    model: S,
    pos: Seq<i64>,
    normal: Seq<i64>,
    step: int,
    n: int,
) -> int
    decreases n,
{
    if n <= 0 {
        0
    } else {
        occlusion_sum(model, pos, normal, step, n - 1) + occlusion_term(model, pos, normal, step, n)
    }
}

impl Occlusion {
    /// `0` for a miss; for a hit, the summed penalty, saturated to an `i64`.
    pub fn render<const N: usize, S: SdfGrad<N>>(
        &self,
        model: &S,
        hit: Result<[i64; N], MarchError>,
    ) -> (r: i64)
        requires
            model.wf(),
            0 <= self.step_size,
            self.num_iters * self.step_size <= LIMIT,
        ensures
            r == match hit {
                Ok(pos) => clamp_coord(
                    occlusion_sum(
                        *model,
                        pos@,
                        model.grad_at(pos@),
                        self.step_size as int,
                        self.num_iters as int,
                    ),
                ),
                Err(_) => 0,
            },
    {
        match hit {
            Err(_) => 0,
            Ok(pos) => {
                let normal = model.grad(pos);
                let ghost step = self.step_size as int;
                let mut sum: u128 = 0;
                let mut i: usize = 0;
                while i < self.num_iters
                    invariant
                        0 <= i <= self.num_iters,
                        model.wf(),
                        0 <= self.step_size,
                        self.num_iters * self.step_size <= LIMIT,
                        step == self.step_size,
                        sum <= i * 0x8000_0000_0000_0000,
                        sum == occlusion_sum(*model, pos@, normal@, step, i as int),
                    decreases self.num_iters - i,
                {
                    let rank = (i + 1) as i128;
                    assert(rank * self.step_size <= self.num_iters * self.step_size)
                        by (nonlinear_arith)
                        requires
                            rank <= self.num_iters,
                            0 <= self.step_size,
                    ;
                    assert(0 <= rank * self.step_size) by (nonlinear_arith)
                        requires
                            rank >= 1,
                            0 <= self.step_size,
                    ;
                    let offset = (rank * (self.step_size as i128)) as i64;
                    let p = advance_along(pos, &normal, offset);
                    let d = model.call(p);
                    proof {
                        assert(p@.len() == N);
                        model.lemma_dist_range(p@);
                    }
                    let short = offset as i128 - d as i128;
                    let den = rank * (UNIT as i128);
                    assert(0 <= short * short <= 4 * LIMIT * LIMIT) by (nonlinear_arith)
                        requires
                            -LIMIT <= short <= 2 * LIMIT,
                    ;
                    assert(den >= UNIT) by (nonlinear_arith)
                        requires
                            den == rank * UNIT,
                            rank >= 1,
                    ;
                    let term = (short * short) / den;
                    proof {
                        vstd::arithmetic::div_mod::lemma_div_is_ordered_by_denominator(
                            (short * short) as int,
                            UNIT as int,
                            den as int,
                        );
                        vstd::arithmetic::div_mod::lemma_div_is_ordered(
                            (short * short) as int,
                            4 * LIMIT * LIMIT,
                            UNIT as int,
                        );
                        vstd::arithmetic::div_mod::lemma_div_pos_is_pos(
                            (short * short) as int,
                            den as int,
                        );
                    }
                    sum = sum + term as u128;
                    i = i + 1;
                }
                assert(sum <= 0x8000_0000_0000_0000 * 0x1_0000_0000_0000_0000) by (nonlinear_arith)
                    requires
                        sum <= i * 0x8000_0000_0000_0000,
                        i <= usize::MAX,
                ;
                saturate_coord(sum as i128)
            },
        }
    }
}

/// `pos` moved by `offset` along `dir`.
fn advance_along<const N: usize>(pos: [i64; N], dir: &[i64; N], offset: i64) -> (r: [i64; N])
    requires
        0 <= offset <= LIMIT,
    ensures
        r@ == advanced(pos@, dir@, offset as int),
{
    let mut q = pos;
    let mut i: usize = 0;
    while i < N
        invariant
            0 <= i <= N,
            q@.len() == N,
            0 <= offset <= LIMIT,
            forall|j: int| 0 <= j < i ==> #[trigger] q@[j] == advanced(pos@, dir@, offset as int)[j],
            forall|j: int| i <= j < N ==> #[trigger] q@[j] == pos@[j],
        decreases N - i,
    {
        let x = offset as i128;
        let y = dir[i] as i128;
        assert(-0x100_0000_0000_0000_0000_0000_0000 <= x * y <= 0x100_0000_0000_0000_0000_0000_0000)
            by (nonlinear_arith)
            requires
                0 <= x <= LIMIT,
                i64::MIN <= y <= i64::MAX,
        ;
        let step = crate::fixed::floor_div(x * y, UNIT as i128);
        proof {
            vstd::arithmetic::div_mod::lemma_div_is_ordered(
                -0x100_0000_0000_0000_0000_0000_0000,
                (x * y) as int,
                UNIT as int,
            );
            vstd::arithmetic::div_mod::lemma_div_is_ordered(
                (x * y) as int,
                0x100_0000_0000_0000_0000_0000_0000,
                UNIT as int,
            );
        }
        q[i] = saturate_coord(pos[i] as i128 + step);
        i = i + 1;
    }
    assert(q@ =~= advanced(pos@, dir@, offset as int));
    q
}

} // verus!
