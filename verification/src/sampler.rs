use vstd::prelude::*;

use crate::error::Error;
use crate::fixed::{Fx, Point};

verus! {

/// A pure scalar signal that the sampler evaluates on a grid.
///
/// `spec_at` is the mathematical value of the signal; `at` computes it,
/// and is obliged to agree with `spec_at` wherever `in_dom` holds.
pub trait Signal {
    /// Where the signal can be evaluated without leaving the
    /// fixed-point representation.
    spec fn in_dom(&self, x: int) -> bool;

    /// The value of the signal at `x`, in thousandths.
    spec fn spec_at(&self, x: int) -> int;

    /// Evaluate the signal at `x`.
    fn at(&self, x: Fx) -> (r: Fx)
        requires
            self.in_dom(x@),
        ensures
            r@ == self.spec_at(x@),
    ;
}

/// The identity signal, `f(x) = x`.
pub struct Identity {}

impl Signal for Identity {
    open spec fn in_dom(&self, x: int) -> bool {
        true
    }

    open spec fn spec_at(&self, x: int) -> int {
        x
    }

    fn at(&self, x: Fx) -> (r: Fx) {
        x
    }
}

/// Grid spacing over `[start, end)` for a requested sample count.
pub open spec fn grid_step(start: int, end: int, count: int) -> int {
    (end - start) / count
}

/// Position of the grid point with index `i`.
pub open spec fn grid_x(start: int, step: int, i: int) -> int {
    start + i * step
}

/// Whether the interval admits a grid of the requested count: it must
/// run forward, and be long enough that the spacing is at least one
/// fixed-point step.
pub open spec fn sample_domain_ok(start: int, end: int, count: int) -> bool {
    end > start && grid_step(start, end, count) >= 1
}

/// The sampler's precondition on the signal: it must be evaluable at
/// every grid point that falls inside the interval.
pub open spec fn sample_pre<S: Signal>(f: S, start: int, end: int, count: int) -> bool {
    sample_domain_ok(start, end, count) ==> {
        let step = grid_step(start, end, count);
        forall|i: int|
            0 <= i && grid_x(start, step, i) < end ==> f.in_dom(#[trigger] grid_x(start, step, i))
    }
}

/// Grid points with later indices lie strictly further right.
pub proof fn lemma_grid_monotone(start: int, step: int, i: int, j: int)
    requires
        step >= 1,
        0 <= i < j,
    ensures
        grid_x(start, step, i) < grid_x(start, step, j),
{
    vstd::arithmetic::mul::lemma_mul_inequality(i + 1, j, step);
    vstd::arithmetic::mul::lemma_mul_is_distributive_add_other_way(step, i, 1);
}

/// The produced grid length is unique: two counts whose last grid point
/// lies below `end` and whose next grid point does not are the same
/// count. Together with `sample`'s crossing clauses this pins the
/// length of its output to one value per input.
pub proof fn lemma_grid_len_unique(start: int, end: int, step: int, n1: int, n2: int)
    requires
        step >= 1,
        1 <= n1,
        1 <= n2,
        grid_x(start, step, n1 - 1) < end,
        grid_x(start, step, n1) >= end,
        grid_x(start, step, n2 - 1) < end,
        grid_x(start, step, n2) >= end,
    ensures
        n1 == n2,
{
    if n1 < n2 {
        if n1 < n2 - 1 {
            lemma_grid_monotone(start, step, n1, n2 - 1);
        }
    }
    if n2 < n1 {
        if n2 < n1 - 1 {
            lemma_grid_monotone(start, step, n2, n1 - 1);
        }
    }
}

/// Evaluate `f` at evenly spaced points of `[start, end)`: at
/// `start, start + step, start + 2*step, ...` while the position is
/// strictly below `end`, with `step = (end - start) / count` at the
/// library's fixed-point resolution. Returns the sampled values and
/// the `(x, f(x))` plot points, always of the same positive length.
///
/// The produced length is pinned by the two crossing clauses: the last
/// grid point sampled lies below `end`, the next one at or past it.
/// Because the spacing is rounded down, that length may exceed `count`;
/// callers must use the produced length for downstream indexing.
///
/// Rejects with `InvalidDomain` exactly when the interval is inverted,
/// degenerate, or too short for the requested count.
pub fn sample<S: Signal>(f: &S, range: (Fx, Fx), count: usize) -> (r: Result<
    (Vec<Fx>, Vec<Point>),
    Error,
>)
    requires
        count >= 1,
        sample_pre(*f, range.0@, range.1@, count as int),
    ensures
        match r {
            Ok(vp) => {
                let start = range.0@;
                let end = range.1@;
                let step = grid_step(start, end, count as int);
                let n = vp.0@.len() as int;
                &&& sample_domain_ok(start, end, count as int)
                &&& vp.0@.len() == vp.1@.len()
                &&& n >= 1
                &&& forall|i: int|
                    0 <= i < n ==> (#[trigger] vp.0@[i])@ == f.spec_at(grid_x(start, step, i))
                &&& forall|i: int|
                    0 <= i < n ==> (#[trigger] vp.1@[i])@ == (
                        grid_x(start, step, i),
                        f.spec_at(grid_x(start, step, i)),
                    )
                &&& forall|i: int, j: int| 0 <= i < j < n ==> vp.1@[i]@.0 < vp.1@[j]@.0
                &&& grid_x(start, step, n - 1) < end
                &&& grid_x(start, step, n) >= end
            },
            Err(e) => {
                &&& e == Error::InvalidDomain
                &&& !sample_domain_ok(range.0@, range.1@, count as int)
            },
        },
{
    let start = range.0.m;
    let end = range.1.m;
    if end <= start {
        return Err(Error::InvalidDomain);
    }
    let span: u64 = (end as i128 - start as i128) as u64;
    let stepu: u64 = span / (count as u64);
    if stepu == 0 {
        proof {
            assert(grid_step(start as int, end as int, count as int) == stepu as int);
        }
        return Err(Error::InvalidDomain);
    }
    let ghost gstep = grid_step(start as int, end as int, count as int);
    proof {
        assert(gstep == stepu as int);
    }
    let step: i128 = stepu as i128;
    let mut values: Vec<Fx> = Vec::new();
    let mut points: Vec<Point> = Vec::new();
    let mut x: i128 = start as i128;
    while x < end as i128
        invariant
            values@.len() == points@.len(),
            step == gstep,
            gstep == grid_step(start as int, end as int, count as int),
            1 <= gstep <= u64::MAX,
            start < end,
            x == grid_x(start as int, gstep, values@.len() as int),
            start as int <= x,
            values@.len() >= 1 ==> grid_x(start as int, gstep, values@.len() - 1) < end as int,
            forall|i: int|
                0 <= i < values@.len() ==> (#[trigger] values@[i])@ == f.spec_at(
                    grid_x(start as int, gstep, i),
                ),
            forall|i: int|
                0 <= i < points@.len() ==> (#[trigger] points@[i])@ == (
                    grid_x(start as int, gstep, i),
                    f.spec_at(grid_x(start as int, gstep, i)),
                ),
            sample_pre(*f, start as int, end as int, count as int),
        decreases end as int + step - x,
    {
        let ghost i = values@.len() as int;
        proof {
            assert(f.in_dom(grid_x(start as int, gstep, i)));
        }
        let fx = Fx { m: x as i64 };
        let y = f.at(fx);
        values.push(y);
        points.push(Point { x: fx, y });
        proof {
            vstd::arithmetic::mul::lemma_mul_is_distributive_add_other_way(gstep, i, 1);
        }
        x = x + step;
    }
    proof {
        let n = values@.len() as int;
        assert(n >= 1) by {
            if n == 0 {
                assert(x == start as int + 0 * gstep);
                vstd::arithmetic::mul::lemma_mul_basics(gstep);
            }
        }
        assert forall|i: int, j: int| 0 <= i < j < n implies points@[i]@.0 < points@[j]@.0 by {
            lemma_grid_monotone(start as int, gstep, i, j);
        }
    }
    Ok((values, points))
}

} // verus!
