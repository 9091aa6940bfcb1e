//! Sphere tracing: walking a ray toward a surface by the distances a field
//! reports.
use crate::fixed::{clamp_coord, floor_div, saturate_coord, LIMIT, UNIT};
use crate::fixed::{is_root, lemma_root_is, HALF_UNIT};
use crate::items::{squares, Sphere};
use crate::sdf::Sdf;
use vstd::prelude::*;

verus! {

/// A ray cast into a scene, from `pos` along `dir`; a direction of length
/// `UNIT` advances by exactly the distance stepped.
#[derive(Clone, Copy, Debug, PartialEq, Eq)]
pub struct Ray<const N: usize> {
    pub pos: [i64; N],
    pub dir: [i64; N],
}

/// Why a march found no surface.
#[derive(Clone, Copy, Debug, PartialEq, Eq)]
pub enum MarchError {
    /// The ray escaped: the distance reported, beyond the miss threshold.
    Diverges(i64),
    /// No surface was reached within the given number of steps.
    MaxIter(usize),
}

/// A sphere tracer: a step counts as a hit below `hit_error`, the ray escapes
/// above `miss_error`, and at most `max_iter` steps are taken.
#[derive(Clone, Copy, Debug, PartialEq, Eq)]
pub struct SphereMarcher {
    pub hit_error: i64,
    pub miss_error: i64,
    pub max_iter: usize,
}

impl Default for SphereMarcher {
    fn default() -> (r: Self)
        ensures
            r.hit_error == 100,
            r.miss_error == 10_000_000_000,
            r.max_iter == 20,
    {
        SphereMarcher { hit_error: 100, miss_error: 10_000_000_000, max_iter: 20 }
    }
}

/// `pos` moved by `d` along `dir`, in fixed point, rounded down and saturated.
pub open spec fn advanced(pos: Seq<i64>, dir: Seq<i64>, d: int) -> Seq<i64> {
    Seq::new(pos.len(), |i: int| clamp_coord(pos[i] + (d * dir[i]) / (UNIT as int)) as i64)
}

/// The outcome of marching from `pos` along `dir` with `steps` steps left.
pub open spec fn march_from<const N: usize, S: Sdf<N>>(
    m: SphereMarcher,
    sdf: S,
    pos: Seq<i64>,
    dir: Seq<i64>,
    steps: nat,
) -> Result<Seq<i64>, MarchError>
    decreases steps,
{
    if steps == 0 {
        Err(MarchError::MaxIter(m.max_iter))
    } else {
        let d = sdf.dist(pos);
        if d > m.miss_error {
            Err(MarchError::Diverges(d as i64))
        } else if d < m.hit_error {
            Ok(pos)
        } else {
            march_from(m, sdf, advanced(pos, dir, d), dir, (steps - 1) as nat)
        }
    }
}

/// The outcome of marching `ray` through `sdf` with the marcher `m`.
pub open spec fn march_outcome<const N: usize, S: Sdf<N>>(
    m: SphereMarcher,
    sdf: S,
    ray: Ray<N>,
) -> Result<Seq<i64>, MarchError> {
    march_from(m, sdf, ray.pos@, ray.dir@, m.max_iter as nat)
}

/// `r` is the outcome `o`, with the hit position as an array.
pub open spec fn is_outcome<const N: usize>(
    r: Result<[i64; N], MarchError>,
    o: Result<Seq<i64>, MarchError>,
) -> bool {
    match r {
        Ok(p) => o == Ok::<Seq<i64>, MarchError>(p@),
        Err(e) => o == Err::<Seq<i64>, MarchError>(e),
    }
}

/// `pos` moved by `d` along `dir`.
fn advance<const N: usize>(pos: [i64; N], dir: &[i64; N], d: i64) -> (r: [i64; N])
    requires
        -LIMIT <= d <= LIMIT,
    ensures
        r@ == advanced(pos@, dir@, d as int),
{
    let mut q = pos;
    let mut i: usize = 0;
    while i < N
        invariant
            0 <= i <= N,
            q@.len() == N,
            -LIMIT <= d <= LIMIT,
            forall|j: int| 0 <= j < i ==> #[trigger] q@[j] == advanced(pos@, dir@, d as int)[j],
            forall|j: int| i <= j < N ==> #[trigger] q@[j] == pos@[j],
        decreases N - i,
    {
        let x = d as i128;
        let y = dir[i] as i128;
        assert(-0x100_0000_0000_0000_0000_0000_0000 <= x * y <= 0x100_0000_0000_0000_0000_0000_0000)
            by (nonlinear_arith)
            requires
                -LIMIT <= x <= LIMIT,
                i64::MIN <= y <= i64::MAX,
        ;
        let step = floor_div(x * y, UNIT as i128);
        proof {
            vstd::arithmetic::div_mod::lemma_div_is_ordered(
                -0x100_0000_0000_0000_0000_0000_0000,
                (x * y) as int,
                UNIT as int,
            );
            vstd::arithmetic::div_mod::lemma_div_is_ordered(
                (x * y) as int,
                0x100_0000_0000_0000_0000_0000_0000,
                UNIT as int,
            );
        }
        q[i] = saturate_coord(pos[i] as i128 + step);
        i = i + 1;
    }
    assert(q@ =~= advanced(pos@, dir@, d as int));
    q
}

impl SphereMarcher {
    /// Marches `ray` through `sdf`: each step evaluates the distance `d`; above
    /// `miss_error` the ray has escaped, below `hit_error` it has hit, and
    /// otherwise it advances by `d`.
    pub fn march<const N: usize, S: Sdf<N>>(&self, sdf: &S, ray: Ray<N>) -> (r: Result<
        [i64; N],
        MarchError,
    >)
        requires
            sdf.wf(),
        ensures
            is_outcome(r, march_outcome(*self, *sdf, ray)),
    {
        let mut pos = ray.pos;
        let mut i: usize = 0;
        while i < self.max_iter
            invariant
                0 <= i <= self.max_iter,
                sdf.wf(),
                march_outcome(*self, *sdf, ray) == march_from(
                    *self,
                    *sdf,
                    pos@,
                    ray.dir@,
                    (self.max_iter - i) as nat,
                ),
            decreases self.max_iter - i,
        {
            let d = sdf.call(pos);
            proof {
                assert(pos@.len() == N);
                sdf.lemma_dist_range(pos@);
            }
            if d > self.miss_error {
                return Err(MarchError::Diverges(d));
            }
            if d < self.hit_error {
                return Ok(pos);
            }
            pos = advance(pos, &ray.dir, d);
            i = i + 1;
        }
        Err(MarchError::MaxIter(self.max_iter))
    }
}

/// Marching is a function of the marcher, the scene and the ray: two marches
/// of the same inputs end the same way.
pub proof fn lemma_march_deterministic<const N: usize, S: Sdf<N>>(
    m: SphereMarcher,
    sdf: S,
    ray: Ray<N>,
    r1: Result<[i64; N], MarchError>,
    r2: Result<[i64; N], MarchError>,
)
    requires
        is_outcome(r1, march_outcome(m, sdf, ray)),
        is_outcome(r2, march_outcome(m, sdf, ray)),
    ensures
        r1 == r2,
{
    match r1 {
        Ok(p1) => {
            match r2 {
                Ok(p2) => {
                    assert(p1@ == p2@);
                    assert(p1 =~= p2);
                },
                Err(_) => {},
            }
        },
        Err(_) => {},
    }
}

/// The squares of a point on axis `k`, at coordinate `x`.
proof fn lemma_squares_on_axis(pos: Seq<i64>, k: int, x: int, i: int)
    requires
        0 <= k < pos.len(),
        0 <= i <= pos.len(),
        pos[k] == x,
        forall|j: int| 0 <= j < pos.len() && j != k ==> #[trigger] pos[j] == 0,
    ensures
        squares(pos, i) == if i > k {
            x * x
        } else {
            0
        },
    decreases i,
{
    if i > 0 {
        lemma_squares_on_axis(pos, k, x, i - 1);
        if i - 1 != k {
            assert(pos[i - 1] == 0);
        }
    }
}

/// Distance from the unit-diameter sphere to a point on axis `k`, `x` from the
/// centre on either side.
proof fn lemma_sphere_dist_on_axis<const N: usize>(pos: Seq<i64>, k: int, c: int, x: int)
    requires
        0 <= k < N,
        pos.len() == N,
        c == x || c == -x,
        pos[k] == c,
        forall|j: int| 0 <= j < N && j != k ==> #[trigger] pos[j] == 0,
        0 <= x <= crate::fixed::LIMIT,
    ensures
        Sphere::<N>.dist(pos) == x - HALF_UNIT,
{
    lemma_squares_on_axis(pos, k, c, N as int);
    assert(c * c == x * x) by (nonlinear_arith)
        requires
            c == x || c == -x,
    ;
    assert(is_root(x * x, x)) by (nonlinear_arith)
        requires
            x >= 0,
    ;
    lemma_root_is(x * x, x);
}

/// A ray sent along any axis, from either side, straight at the centre of the
/// unit-diameter sphere, from outside it and within the miss threshold, hits
/// within two steps, at a point whose distance to the surface is below
/// `hit_error`. `side` is `1` or `-1`: the ray starts at `side * start` on
/// axis `k` and heads the other way.
pub proof fn lemma_march_sphere_on_axis<const N: usize>(
    m: SphereMarcher,
    ray: Ray<N>,
    k: int,
    side: int,
    start: int,
)
    requires
        0 <= k < N,
        side == 1 || side == -1,
        m.max_iter >= 2,
        0 < m.hit_error,
        HALF_UNIT < start <= crate::fixed::LIMIT,
        start - HALF_UNIT <= m.miss_error,
        ray.pos@[k] == side * start,
        ray.dir@[k] == -side * UNIT,
        forall|j: int| 0 <= j < N && j != k ==> #[trigger] ray.pos@[j] == 0,
        forall|j: int| 0 <= j < N && j != k ==> #[trigger] ray.dir@[j] == 0,
    ensures
        march_outcome(m, Sphere::<N>, ray) matches Ok(p) && -m.hit_error < Sphere::<N>.dist(p)
            < m.hit_error,
        march_from(m, Sphere::<N>, ray.pos@, ray.dir@, 2) matches Ok(_),
{
    let s = Sphere::<N>;
    let pos = ray.pos@;
    let dir = ray.dir@;
    assert(side * start == start || side * start == -start) by (nonlinear_arith)
        requires
            side == 1 || side == -1,
    ;
    lemma_sphere_dist_on_axis::<N>(pos, k, side * start, start);
    let d = start - HALF_UNIT;
    if d >= m.hit_error {
        let next = advanced(pos, dir, d);
        assert((d * (-side * UNIT)) / (UNIT as int) == -side * d) by {
            assert(d * (-side * UNIT) == UNIT * (-side * d)) by (nonlinear_arith);
            vstd::arithmetic::div_mod::lemma_div_multiples_vanish(-side * d, UNIT as int);
        }
        assert forall|j: int| 0 <= j < N && j != k implies #[trigger] next[j] == 0 by {
            assert(d * dir[j] == 0) by (nonlinear_arith)
                requires
                    dir[j] == 0,
            ;
        }
        assert(side * start - side * d == side * HALF_UNIT) by (nonlinear_arith)
            requires
                d == start - HALF_UNIT,
        ;
        assert(side * HALF_UNIT == HALF_UNIT || side * HALF_UNIT == -HALF_UNIT)
            by (nonlinear_arith)
            requires
                side == 1 || side == -1,
        ;
        assert(pos[k] + (d * dir[k]) / (UNIT as int) == side * HALF_UNIT);
        assert(next[k] == side * HALF_UNIT);
        lemma_sphere_dist_on_axis::<N>(next, k, side * HALF_UNIT, HALF_UNIT as int);
        assert(march_from(m, s, next, dir, 1) == Ok::<Seq<i64>, MarchError>(next));
        assert(march_from(m, s, next, dir, (m.max_iter - 1) as nat) == Ok::<
            Seq<i64>,
            MarchError,
        >(next));
    }
}

} // verus!
