//! Integer cell coordinates.

use vstd::prelude::*;

verus! {

/// A cell of the world grid. `y` points up.
#[derive(Clone, Copy, Debug, PartialEq, Eq, Hash, Structural)]
pub struct IVec3 {
    pub x: i32,
    pub y: i32,
    pub z: i32,
}

/// Every coordinate keeps at least `margin` away from the limits of `i32`.
pub open spec fn clear_of_limits(c: IVec3, margin: int) -> bool {
    &&& i32::MIN + margin <= c.x <= i32::MAX - margin
    &&& i32::MIN + margin <= c.y <= i32::MAX - margin
    &&& i32::MIN + margin <= c.z <= i32::MAX - margin
}

/// The value fits an `i32`.
pub open spec fn fits_i32(v: int) -> bool {
    i32::MIN <= v <= i32::MAX
}

/// The cell `(dx, dy, dz)` away from `c`.
pub open spec fn shifted(c: IVec3, dx: int, dy: int, dz: int) -> IVec3 {
    IVec3 { x: (c.x + dx) as i32, y: (c.y + dy) as i32, z: (c.z + dz) as i32 }
}

/// Distance on one axis.
pub open spec fn gap(a: int, b: int) -> int {
    if a <= b {
        b - a
    } else {
        a - b
    }
}

/// Sum of the three axis distances.
pub open spec fn manhattan_spec(a: IVec3, b: IVec3) -> int {
    gap(a.x as int, b.x as int) + gap(a.y as int, b.y as int) + gap(a.z as int, b.z as int)
}

pub open spec fn max_of(a: int, b: int) -> int {
    if a <= b {
        b
    } else {
        a
    }
}

pub open spec fn min_of(a: int, b: int) -> int {
    if a <= b {
        a
    } else {
        b
    }
}

/// Largest of the three axis distances.
pub open spec fn chebyshev_spec(a: IVec3, b: IVec3) -> int {
    max_of(
        max_of(gap(a.x as int, b.x as int), gap(a.y as int, b.y as int)),
        gap(a.z as int, b.z as int),
    )
}

/// Lexicographic order by `x`, then `y`, then `z`.
pub open spec fn cell_before(a: IVec3, b: IVec3) -> bool {
    a.x < b.x || (a.x == b.x && (a.y < b.y || (a.y == b.y && a.z < b.z)))
}

/// `c` lies in the box spanned by `lo` and `hi`, both included.
pub open spec fn in_box(c: IVec3, lo: IVec3, hi: IVec3) -> bool {
    &&& lo.x <= c.x <= hi.x
    &&& lo.y <= c.y <= hi.y
    &&& lo.z <= c.z <= hi.z
}

/// x part of walking direction `d`.
pub open spec fn dir_dx(d: int) -> int {
    if d == 0 {
        1
    } else if d == 1 {
        -1
    } else {
        0
    }
}

/// z part of walking direction `d`.
pub open spec fn dir_dz(d: int) -> int {
    if d == 2 {
        1
    } else if d == 3 {
        -1
    } else {
        0
    }
}

/// The horizontal neighbour of `c` in direction `d`.
pub open spec fn neighbour(c: IVec3, d: int) -> IVec3 {
    shifted(c, dir_dx(d), 0, dir_dz(d))
}

/// Distance on one axis.
pub fn axis_gap(a: i32, b: i32) -> (r: i64)
    ensures
        r == gap(a as int, b as int),
        0 <= r < 0x1_0000_0000,
{
    if a <= b {
        b as i64 - a as i64
    } else {
        a as i64 - b as i64
    }
}

impl IVec3 {
    pub fn new(x: i32, y: i32, z: i32) -> (r: IVec3)
        ensures
            r == (IVec3 { x, y, z }),
    {
        IVec3 { x, y, z }
    }

    /// The cell `(dx, dy, dz)` away.
    pub fn shift(self, dx: i32, dy: i32, dz: i32) -> (r: IVec3)
        requires
            fits_i32(self.x + dx),
            fits_i32(self.y + dy),
            fits_i32(self.z + dz),
        ensures
            r == shifted(self, dx as int, dy as int, dz as int),
            r.x == self.x + dx,
            r.y == self.y + dy,
            r.z == self.z + dz,
    {
        IVec3 { x: self.x + dx, y: self.y + dy, z: self.z + dz }
    }

    /// The cell `(dx, dy, dz)` away, if its coordinates exist.
    pub fn checked_shift(self, dx: i32, dy: i32, dz: i32) -> (r: Option<IVec3>)
        ensures
            r is Some <==> fits_i32(self.x + dx) && fits_i32(self.y + dy) && fits_i32(self.z + dz),
            r matches Some(c) ==> c == shifted(self, dx as int, dy as int, dz as int) && c.x == self.x
                + dx && c.y == self.y + dy && c.z == self.z + dz,
    {
        match (self.x.checked_add(dx), self.y.checked_add(dy), self.z.checked_add(dz)) {
            (Some(x), Some(y), Some(z)) => Some(IVec3 { x, y, z }),
            _ => None,
        }
    }

    /// The horizontal neighbour in direction 0 (+x), 1 (-x), 2 (+z) or 3 (-z).
    pub fn side(self, dir: u8) -> (r: IVec3)
        requires
            dir < 4,
            clear_of_limits(self, 1),
        ensures
            r == neighbour(self, dir as int),
            r.x == self.x + dir_dx(dir as int),
            r.y == self.y,
            r.z == self.z + dir_dz(dir as int),
    {
        if dir == 0 {
            self.shift(1, 0, 0)
        } else if dir == 1 {
            self.shift(-1, 0, 0)
        } else if dir == 2 {
            self.shift(0, 0, 1)
        } else {
            self.shift(0, 0, -1)
        }
    }

    /// Sum of the three axis distances.
    pub fn manhattan(self, other: IVec3) -> (r: i64)
        ensures
            r == manhattan_spec(self, other),
            0 <= r < 0x3_0000_0000,
    {
        axis_gap(self.x, other.x) + axis_gap(self.y, other.y) + axis_gap(self.z, other.z)
    }

    /// Largest of the three axis distances.
    pub fn chebyshev(self, other: IVec3) -> (r: i64)
        ensures
            r == chebyshev_spec(self, other),
            0 <= r < 0x1_0000_0000,
    {
        let dx: i64 = axis_gap(self.x, other.x);
        let dy: i64 = axis_gap(self.y, other.y);
        let dz: i64 = axis_gap(self.z, other.z);
        let xy: i64 = if dx <= dy {
            dy
        } else {
            dx
        };
        if xy <= dz {
            dz
        } else {
            xy
        }
    }

    /// Lexicographic order by `x`, then `y`, then `z`.
    pub fn before(self, other: IVec3) -> (r: bool)
        ensures
            r == cell_before(self, other),
    {
        self.x < other.x || (self.x == other.x && (self.y < other.y || (self.y == other.y && self.z
            < other.z)))
    }

    /// The cell lies in the box spanned by `lo` and `hi`, both included.
    pub fn inside(self, lo: IVec3, hi: IVec3) -> (r: bool)
        ensures
            r == in_box(self, lo, hi),
    {
        lo.x <= self.x && self.x <= hi.x && lo.y <= self.y && self.y <= hi.y && lo.z <= self.z
            && self.z <= hi.z
    }

    /// Smaller coordinate on each axis.
    pub fn min(self, other: IVec3) -> (r: IVec3)
        ensures
            r.x == min_of(self.x as int, other.x as int),
            r.y == min_of(self.y as int, other.y as int),
            r.z == min_of(self.z as int, other.z as int),
    {
        IVec3 {
            x: if self.x <= other.x {
                self.x
            } else {
                other.x
            },
            y: if self.y <= other.y {
                self.y
            } else {
                other.y
            },
            z: if self.z <= other.z {
                self.z
            } else {
                other.z
            },
        }
    }

    /// Larger coordinate on each axis.
    pub fn max(self, other: IVec3) -> (r: IVec3)
        ensures
            r.x == max_of(self.x as int, other.x as int),
            r.y == max_of(self.y as int, other.y as int),
            r.z == max_of(self.z as int, other.z as int),
    {
        IVec3 {
            x: if self.x <= other.x {
                other.x
            } else {
                self.x
            },
            y: if self.y <= other.y {
                other.y
            } else {
                self.y
            },
            z: if self.z <= other.z {
                other.z
            } else {
                self.z
            },
        }
    }
}

/// Distances are the same both ways, and zero only from a cell to itself. The
/// sum of the axes grows by one with each cell gone on one axis; the largest of
/// them is reached on some axis and exceeded on none.
pub proof fn law_distances(a: IVec3, b: IVec3, d: int)
    ensures
        manhattan_spec(a, b) == manhattan_spec(b, a),
        manhattan_spec(a, b) == 0 <==> a == b,
        a.x <= b.x && a.y <= b.y && a.z <= b.z ==> manhattan_spec(a, b) == (b.x - a.x) + (b.y - a.y)
            + (b.z - a.z),
        manhattan_spec(a, b) >= b.x - a.x,
        manhattan_spec(a, b) == manhattan_spec(a, IVec3 { x: b.x, ..a }) + manhattan_spec(
            a,
            IVec3 { y: b.y, ..a },
        ) + manhattan_spec(a, IVec3 { z: b.z, ..a }),
        chebyshev_spec(a, b) == chebyshev_spec(b, a),
        chebyshev_spec(a, b) <= d <==> -d <= b.x - a.x <= d && -d <= b.y - a.y <= d && -d <= b.z - a.z
            <= d,
{
}

/// Cells are in a strict order: of two different ones exactly one comes first,
/// and what comes before one comes before all after it. The order goes by x
/// first, then by y, and by z last.
pub proof fn law_cells_are_in_order(a: IVec3, b: IVec3, c: IVec3)
    ensures
        !cell_before(a, a),
        a != b ==> (cell_before(a, b) <==> !cell_before(b, a)),
        cell_before(a, b) && cell_before(b, c) ==> cell_before(a, c),
        a.x < b.x ==> cell_before(a, b),
        a.x == b.x && a.y < b.y ==> cell_before(a, b),
        a.x == b.x && a.y == b.y && a.z < b.z ==> cell_before(a, b),
{
}

/// The four directions lead one cell along x or along z, each of them another
/// way: along x there and back, then along z there and back.
pub proof fn law_four_directions(d: int, e: int)
    requires
        0 <= d < 4,
        0 <= e < 4,
    ensures
        dir_dx(d) * dir_dx(d) + dir_dz(d) * dir_dz(d) == 1,
        d != e ==> dir_dx(d) != dir_dx(e) || dir_dz(d) != dir_dz(e),
        d < 2 ==> dir_dz(d) == 0 && dir_dx(d) == 1 - 2 * d,
        d >= 2 ==> dir_dx(d) == 0 && dir_dz(d) == 5 - 2 * d,
{
    assert(dir_dx(d) * dir_dx(d) + dir_dz(d) * dir_dz(d) == 1) by {
        if d < 2 {
            assert(dir_dx(d) == 1 || dir_dx(d) == -1);
            assert(dir_dz(d) == 0);
        } else {
            assert(dir_dz(d) == 1 || dir_dz(d) == -1);
            assert(dir_dx(d) == 0);
        }
    }
}

} // verus!
