use vstd::prelude::*;

verus! {

/// A position on the two-dimensional integer lattice.
#[derive(Clone, Copy, Debug, Eq, Hash)]
pub struct Coord {
    pub x: i32,
    pub y: i32,
}

/// The absolute difference of two mathematical integers.
pub open spec fn abs_diff(a: int, b: int) -> int {
    if a >= b {
        a - b
    } else {
        b - a
    }
}

/// Manhattan distance between two coordinates, saturating at `u32::MAX`.
pub open spec fn spec_manhattan(from: Coord, to: Coord) -> u32 {
    let d = abs_diff(from.x as int, to.x as int) + abs_diff(from.y as int, to.y as int);
    if d > u32::MAX {
        u32::MAX
    } else {
        d as u32
    }
}

impl Coord {
    pub fn new(x: i32, y: i32) -> (c: Coord)
        ensures
            c == (Coord { x, y }),
    {
        Coord { x, y }
    }

    /// Manhattan distance between `from` and `to`, saturating at `u32::MAX`.
    pub fn distance(from: &Coord, to: &Coord) -> (d: u32)
        ensures
            d == spec_manhattan(*from, *to),
    {
        let dx: i64 = (to.x as i64) - (from.x as i64);
        let dy: i64 = (to.y as i64) - (from.y as i64);
        let adx: i64 = if dx >= 0 {
            dx
        } else {
            -dx
        };
        let ady: i64 = if dy >= 0 {
            dy
        } else {
            -dy
        };
        let s: i64 = adx + ady;
        if s > (u32::MAX as i64) {
            u32::MAX
        } else {
            s as u32
        }
    }
}

impl PartialEq for Coord {
    fn eq(&self, other: &Coord) -> (r: bool) {
        self.x == other.x && self.y == other.y
    }
}

impl vstd::std_specs::cmp::PartialEqSpecImpl for Coord {
    open spec fn obeys_eq_spec() -> bool {
        true
    }

    open spec fn eq_spec(&self, other: &Coord) -> bool {
        self.x == other.x && self.y == other.y
    }
}

} // verus!
