use vstd::prelude::*;

verus! {

/// Number of fixed-point steps that make one whole unit.
pub const MILLIS_PER_UNIT: i64 = 1000;

/// A fixed-point scalar: the represented value is `m / 1000`.
///
/// Every signal value and coordinate in this library is held at this
/// resolution, so all arithmetic on them is exact integer arithmetic
/// on the underlying count of thousandths.
#[derive(Clone, Copy, PartialEq, Eq, Structural, Debug)]
pub struct Fx {
    pub m: i64,
}

impl View for Fx {
    type V = int;

    open spec fn view(&self) -> int {
        self.m as int
    }
}

impl Fx {
    /// The scalar `m / 1000`, given directly in thousandths.
    pub fn from_milli(m: i64) -> (r: Fx)
        ensures
            r@ == m as int,
    {
        Fx { m }
    }

    /// The whole number `u`.
    pub fn from_units(u: i64) -> (r: Fx)
        requires
            i64::MIN <= u * 1000 <= i64::MAX,
        ensures
            r@ == u * 1000,
    {
        Fx { m: u * MILLIS_PER_UNIT }
    }

    /// The underlying count of thousandths.
    pub fn milli(&self) -> (r: i64)
        ensures
            r as int == self@,
    {
        self.m
    }
}

/// A coordinate pair: `(x, f(x))` for plot points, or `(omega, delta)`
/// for the filter's diagnostic coefficients. The meaning is contextual;
/// the representation is the same.
#[derive(Clone, Copy, PartialEq, Eq, Structural, Debug)]
pub struct Point {
    pub x: Fx,
    pub y: Fx,
}

impl View for Point {
    type V = (int, int);

    open spec fn view(&self) -> (int, int) {
        (self.x@, self.y@)
    }
}

impl Point {
    pub fn new(x: Fx, y: Fx) -> (r: Point)
        ensures
            r@ == (x@, y@),
    {
        Point { x, y }
    }
}

/// The values of a sequence of fixed-point scalars.
pub open spec fn fx_views(s: Seq<Fx>) -> Seq<int> {
    s.map_values(|f: Fx| f@)
}

/// The values of a sequence of coordinate pairs.
pub open spec fn pt_views(s: Seq<Point>) -> Seq<(int, int)> {
    s.map_values(|p: Point| p@)
}

} // verus!
