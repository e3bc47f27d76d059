//! Integer vectors, rectangles and the toroidal wrap of the simulation plane.

use vstd::prelude::*;

verus! {

/// Ticks per distance unit.
pub const UNIT: i64 = 1000;

/// Largest magnitude of a coordinate that the arithmetic of this crate accepts.
pub const COORD_LIMIT: i64 = 1_073_741_824;

/// A point or a displacement, in ticks.
#[derive(Clone, Copy, Debug, PartialEq, Eq, Structural)]
pub struct Vect {
    pub x: i64,
    pub y: i64,
}

impl Vect {
    /// Both coordinates lie within `COORD_LIMIT` of zero.
    pub open spec fn bounded(self) -> bool {
        &&& -COORD_LIMIT <= self.x <= COORD_LIMIT
        &&& -COORD_LIMIT <= self.y <= COORD_LIMIT
    }

    pub fn new(x: i64, y: i64) -> (v: Vect)
        ensures
            v.x == x,
            v.y == y,
    {
        Vect { x, y }
    }

    pub fn zero() -> (v: Vect)
        ensures
            v.x == 0,
            v.y == 0,
    {
        Vect { x: 0, y: 0 }
    }
}

/// Squared Euclidean distance between two points.
pub open spec fn dist_sq(a: Vect, b: Vect) -> int {
    (a.x - b.x) * (a.x - b.x) + (a.y - b.y) * (a.y - b.y)
}

/// Squared Euclidean length of a vector.
pub open spec fn norm_sq(v: Vect) -> int {
    v.x * v.x + v.y * v.y
}

pub fn distance_squared(a: Vect, b: Vect) -> (d: i128)
    requires
        a.bounded(),
        b.bounded(),
    ensures
        d == dist_sq(a, b),
        0 <= d <= 0x8000_0000_0000_0000,
{
    let dx: i128 = a.x as i128 - b.x as i128;
    let dy: i128 = a.y as i128 - b.y as i128;
    assert(0 <= dx * dx <= 0x4000_0000_0000_0000) by (nonlinear_arith)
        requires
            -0x8000_0000 <= dx <= 0x8000_0000,
    ;
    assert(0 <= dy * dy <= 0x4000_0000_0000_0000) by (nonlinear_arith)
        requires
            -0x8000_0000 <= dy <= 0x8000_0000,
    ;
    dx * dx + dy * dy
}

/// Where a point lies relative to a rectangle.
#[derive(Clone, Copy, Debug, PartialEq, Eq, Structural)]
pub enum Side {
    Right,
    Left,
    Top,
    Bottom,
    In,
}

/// An axis-aligned rectangle, both corners included.
#[derive(Clone, Copy, Debug, PartialEq, Eq, Structural)]
pub struct Rect {
    pub min: Vect,
    pub max: Vect,
}

impl Rect {
    /// The point lies inside the rectangle or on its border.
    pub open spec fn holds(self, p: Vect) -> bool {
        &&& self.min.x <= p.x <= self.max.x
        &&& self.min.y <= p.y <= self.max.y
    }

    /// The square of half-width `rad` around `c`.
    pub open spec fn spec_cube(c: Vect, rad: i64) -> Rect {
        Rect {
            min: Vect { x: (c.x - rad) as i64, y: (c.y - rad) as i64 },
            max: Vect { x: (c.x + rad) as i64, y: (c.y + rad) as i64 },
        }
    }

    pub fn cube(c: Vect, rad: i64) -> (r: Rect)
        requires
            c.bounded(),
            0 <= rad <= COORD_LIMIT,
        ensures
            r == Rect::spec_cube(c, rad),
            r.min.x == c.x - rad,
            r.min.y == c.y - rad,
            r.max.x == c.x + rad,
            r.max.y == c.y + rad,
    {
        Rect {
            min: Vect { x: c.x - rad, y: c.y - rad },
            max: Vect { x: c.x + rad, y: c.y + rad },
        }
    }

    /// The side on which `pos` has left the rectangle. The horizontal axis is
    /// tested first, so a point beyond a corner counts as left or right.
    pub open spec fn spec_respective(self, pos: Vect) -> Side {
        if pos.x < self.min.x {
            Side::Left
        } else if pos.x > self.max.x {
            Side::Right
        } else if pos.y < self.min.y {
            Side::Bottom
        } else if pos.y > self.max.y {
            Side::Top
        } else {
            Side::In
        }
    }

    pub fn respective(&self, pos: Vect) -> (s: Side)
        ensures
            s == self.spec_respective(pos),
            s == Side::In <==> self.holds(pos),
    {
        if pos.x < self.min.x {
            Side::Left
        } else if pos.x > self.max.x {
            Side::Right
        } else if pos.y < self.min.y {
            Side::Bottom
        } else if pos.y > self.max.y {
            Side::Top
        } else {
            Side::In
        }
    }

    /// Toroidal wrap: a point that has left through one side re-enters at the
    /// opposite edge, its other coordinate untouched.
    pub open spec fn spec_wrap(self, pos: Vect) -> Vect {
        match self.spec_respective(pos) {
            Side::Left => Vect { x: self.max.x, y: pos.y },
            Side::Right => Vect { x: self.min.x, y: pos.y },
            Side::Top => Vect { x: pos.x, y: self.min.y },
            Side::Bottom => Vect { x: pos.x, y: self.max.y },
            Side::In => pos,
        }
    }

    pub fn wrap(&self, pos: Vect) -> (p: Vect)
        ensures
            p == self.spec_wrap(pos),
            self.min.x <= pos.x && pos.x > self.max.x ==> p.x == self.min.x && p.y == pos.y,
            self.holds(pos) ==> p == pos,
            self.min.x <= self.max.x && self.min.y <= self.max.y ==> self.min.x <= p.x
                <= self.max.x,
            self.min.x <= self.max.x && self.min.y <= self.max.y && pos.bounded()
                && self.min.bounded() && self.max.bounded() ==> p.bounded(),
    {
        match self.respective(pos) {
            Side::Left => Vect { x: self.max.x, y: pos.y },
            Side::Right => Vect { x: self.min.x, y: pos.y },
            Side::Top => Vect { x: pos.x, y: self.min.y },
            Side::Bottom => Vect { x: pos.x, y: self.max.y },
            Side::In => pos,
        }
    }
}

} // verus!
