use vstd::prelude::*;

use crate::error::Error;
use crate::fixed::{Fx, Point};

verus! {

/// Magnitude of a scalar value.
pub open spec fn abs_val(a: int) -> int {
    if a < 0 {
        -a
    } else {
        a
    }
}

/// Smallest value of a non-empty sequence.
pub open spec fn seq_min(s: Seq<int>) -> int
    decreases s.len(),
{
    if s.len() <= 1 {
        s[0]
    } else {
        let m = seq_min(s.drop_last());
        if s.last() < m {
            s.last()
        } else {
            m
        }
    }
}

/// Largest value of a non-empty sequence.
pub open spec fn seq_max(s: Seq<int>) -> int
    decreases s.len(),
{
    if s.len() <= 1 {
        s[0]
    } else {
        let m = seq_max(s.drop_last());
        if s.last() > m {
            s.last()
        } else {
            m
        }
    }
}

/// The first coordinates of a sequence of pairs.
pub open spec fn xs(s: Seq<Point>) -> Seq<int> {
    s.map_values(|p: Point| p.x@)
}

/// The second coordinates of a sequence of pairs.
pub open spec fn ys(s: Seq<Point>) -> Seq<int> {
    s.map_values(|p: Point| p.y@)
}

/// Padded lower bound of an axis: one tenth of the magnitude of the
/// least coordinate, anchored on the opposite side of zero. This is
/// deliberately not `min - tenth`: the diagnostic coordinates are
/// expected to straddle or hug zero, so the axis starts just below it.
pub open spec fn pad_low(m: int) -> int {
    -(abs_val(m) / 10)
}

/// Padded upper bound of an axis: the largest coordinate plus one
/// tenth of its own magnitude.
pub open spec fn pad_high(m: int) -> int {
    m + abs_val(m) / 10
}

/// Largest coordinate magnitude `bounds` accepts; keeps the padded
/// upper bound within the fixed-point representation.
pub const COORD_LIMIT: i64 = 8_000_000_000_000_000_000;

/// The least and greatest values of a non-empty sequence are values of
/// the sequence, and bound every value of it.
pub proof fn lemma_seq_min_max(s: Seq<int>)
    requires
        s.len() >= 1,
    ensures
        s.contains(seq_min(s)),
        s.contains(seq_max(s)),
        forall|i: int| 0 <= i < s.len() ==> seq_min(s) <= #[trigger] s[i] <= seq_max(s),
    decreases s.len(),
{
    if s.len() > 1 {
        let d = s.drop_last();
        lemma_seq_min_max(d);
        let im = choose|i: int| 0 <= i < d.len() && d[i] == seq_min(d);
        assert(s[im] == seq_min(d));
        let ix = choose|i: int| 0 <= i < d.len() && d[i] == seq_max(d);
        assert(s[ix] == seq_max(d));
        assert(s[s.len() - 1] == s.last());
        assert forall|i: int| 0 <= i < s.len() implies seq_min(s) <= #[trigger] s[i] <= seq_max(
            s,
        ) by {
            if i < s.len() - 1 {
                assert(d[i] == s[i]);
            }
        }
    }
}

/// Magnitude of a fixed-point count, widened so that even the most
/// negative count has a representable magnitude.
fn abs_milli(v: i64) -> (r: u64)
    ensures
        r as int == abs_val(v as int),
{
    let w: i128 = v as i128;
    if w < 0 {
        (-w) as u64
    } else {
        w as u64
    }
}

/// Component-wise extrema of a non-empty coordinate sequence, padded by
/// one tenth of each component's magnitude: the lower corner is
/// `-|min|/10` per component, the upper corner `max + |max|/10`.
/// Rejects an empty sequence, where no extremum exists.
///
/// The magnitude limit on the coordinates is a machine limit: it keeps
/// the padded upper corner within the fixed-point representation.
pub fn bounds(points: &Vec<Point>) -> (r: Result<(Point, Point), Error>)
    requires
        forall|i: int|
            0 <= i < points@.len() ==> abs_val(#[trigger] points@[i]@.0) <= COORD_LIMIT as int
                && abs_val(points@[i]@.1) <= COORD_LIMIT as int,
    ensures
        match r {
            Ok(b) => {
                &&& points@.len() > 0
                &&& b.0@.0 == pad_low(seq_min(xs(points@)))
                &&& b.0@.1 == pad_low(seq_min(ys(points@)))
                &&& b.1@.0 == pad_high(seq_max(xs(points@)))
                &&& b.1@.1 == pad_high(seq_max(ys(points@)))
            },
            Err(e) => e == Error::EmptyInput && points@.len() == 0,
        },
{
    let n = points.len();
    if n == 0 {
        return Err(Error::EmptyInput);
    }
    let p0 = points[0];
    let mut min_x: i64 = p0.x.m;
    let mut min_y: i64 = p0.y.m;
    let mut max_x: i64 = p0.x.m;
    let mut max_y: i64 = p0.y.m;
    proof {
        assert(xs(points@).take(1) =~= seq![points@[0].x@]);
        assert(ys(points@).take(1) =~= seq![points@[0].y@]);
    }
    let mut i: usize = 1;
    while i < n
        invariant
            1 <= i <= n,
            n == points@.len(),
            min_x as int == seq_min(xs(points@).take(i as int)),
            min_y as int == seq_min(ys(points@).take(i as int)),
            max_x as int == seq_max(xs(points@).take(i as int)),
            max_y as int == seq_max(ys(points@).take(i as int)),
        decreases n - i,
    {
        let p = points[i];
        proof {
            assert(xs(points@).take(i + 1).drop_last() =~= xs(points@).take(i as int));
            assert(ys(points@).take(i + 1).drop_last() =~= ys(points@).take(i as int));
            assert(xs(points@).take(i + 1).last() == points@[i as int].x@);
            assert(ys(points@).take(i + 1).last() == points@[i as int].y@);
        }
        if p.x.m < min_x {
            min_x = p.x.m;
        }
        if p.y.m < min_y {
            min_y = p.y.m;
        }
        if p.x.m > max_x {
            max_x = p.x.m;
        }
        if p.y.m > max_y {
            max_y = p.y.m;
        }
        i += 1;
    }
    proof {
        assert(xs(points@).take(n as int) =~= xs(points@));
        assert(ys(points@).take(n as int) =~= ys(points@));
        lemma_seq_min_max(xs(points@));
        lemma_seq_min_max(ys(points@));
        let jx = choose|j: int| 0 <= j < xs(points@).len() && xs(points@)[j] == seq_max(xs(points@));
        assert(abs_val(points@[jx]@.0) <= COORD_LIMIT as int);
        let jy = choose|j: int| 0 <= j < ys(points@).len() && ys(points@)[j] == seq_max(ys(points@));
        assert(abs_val(points@[jy]@.0) <= COORD_LIMIT as int);
        assert(abs_val(points@[jy]@.1) <= COORD_LIMIT as int);
        vstd::arithmetic::div_mod::lemma_div_is_ordered(
            abs_val(max_x as int),
            COORD_LIMIT as int,
            10,
        );
        vstd::arithmetic::div_mod::lemma_div_is_ordered(
            abs_val(max_y as int),
            COORD_LIMIT as int,
            10,
        );
        vstd::arithmetic::div_mod::lemma_div_pos_is_pos(abs_val(max_x as int), 10);
        vstd::arithmetic::div_mod::lemma_div_pos_is_pos(abs_val(max_y as int), 10);
        vstd::arithmetic::div_mod::lemma_div_nonincreasing(abs_val(min_x as int), 10);
        vstd::arithmetic::div_mod::lemma_div_nonincreasing(abs_val(min_y as int), 10);
        vstd::arithmetic::div_mod::lemma_div_pos_is_pos(abs_val(min_x as int), 10);
        vstd::arithmetic::div_mod::lemma_div_pos_is_pos(abs_val(min_y as int), 10);
    }
    let low_x: i64 = -((abs_milli(min_x) / 10) as i64);
    let low_y: i64 = -((abs_milli(min_y) / 10) as i64);
    let high_x: i64 = max_x + (abs_milli(max_x) / 10) as i64;
    let high_y: i64 = max_y + (abs_milli(max_y) / 10) as i64;
    Ok(
        (
            Point { x: Fx { m: low_x }, y: Fx { m: low_y } },
            Point { x: Fx { m: high_x }, y: Fx { m: high_y } },
        ),
    )
}

} // verus!
