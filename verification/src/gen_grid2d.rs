use vstd::prelude::*;

verus! {

/// Largest coordinate magnitude the library accepts: 2^40. Keeping every
/// coordinate within this bound lets squared distances be computed in
/// `i128` without overflow, and keeps the search window `query +- radius`
/// inside `i64`.
pub const COORD_LIMIT: i64 = 0x100_0000_0000;

/// A 2-D coordinate pair. Coordinates are fixed-point integers: a caller
/// working in real units multiplies by its chosen scale and rounds before
/// building points.
#[derive(Clone, Copy, PartialEq, Eq, Structural, Debug)]
pub struct Grid2D {
    pub x: i64,
    pub y: i64,
}

/// A single coordinate is within the accepted magnitude bound.
pub open spec fn coord_ok(c: int) -> bool {
    -COORD_LIMIT <= c && c <= COORD_LIMIT
}

/// Both coordinates of a point are within the accepted magnitude bound.
pub open spec fn point_ok(p: Grid2D) -> bool {
    coord_ok(p.x as int) && coord_ok(p.y as int)
}

/// Squared Euclidean distance between two points, as a mathematical integer.
pub open spec fn dist2(p: Grid2D, q: Grid2D) -> int {
    (p.x - q.x) * (p.x - q.x) + (p.y - q.y) * (p.y - q.y)
}

impl Grid2D {
    pub fn new(x_: i64, y_: i64) -> (p: Self)
        ensures
            p == (Grid2D { x: x_, y: y_ }),
    {
        Grid2D { x: x_, y: y_ }
    }

    /// Squared Euclidean distance to `point`, exactly.
    pub fn distance_square(&self, point: &Grid2D) -> (d: i128)
        requires
            point_ok(*self),
            point_ok(*point),
        ensures
            d == dist2(*self, *point),
    {
        let dx: i128 = self.x as i128 - point.x as i128;
        let dy: i128 = self.y as i128 - point.y as i128;
        proof {
            assert(dx * dx <= 0x40000_0000_0000_0000_0000 && dx * dx >= 0) by (nonlinear_arith)
                requires -0x200_0000_0000 <= dx <= 0x200_0000_0000;
            assert(dy * dy <= 0x40000_0000_0000_0000_0000 && dy * dy >= 0) by (nonlinear_arith)
                requires -0x200_0000_0000 <= dy <= 0x200_0000_0000;
        }
        dx * dx + dy * dy
    }
}

/// An ordered, growable sequence of points. Sequence position is a point's
/// stable identity: points are only ever appended or mutated in place,
/// never reordered.
#[derive(Clone, PartialEq, Debug)]
pub struct Points2D {
    pub points: Vec<Grid2D>,
}

impl Points2D {
    pub fn new() -> (v: Self)
        ensures
            v.points@ == Seq::<Grid2D>::empty(),
    {
        Points2D { points: Vec::new() }
    }

    /// Appends the point `(x_r, y_r)` at the end of the sequence.
    pub fn push(&mut self, x_r: i64, y_r: i64)
        ensures
            final(self).points@ == old(self).points@.push((Grid2D { x: x_r, y: y_r })),
    {
        self.points.push(Grid2D { x: x_r, y: y_r });
    }
}

} // verus!
