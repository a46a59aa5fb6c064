//! Integer vectors of the voxel grid.

use vstd::prelude::*;

verus! {

/// A point or an offset on a three-dimensional integer grid.
#[derive(Clone, Copy, Debug, PartialEq, Eq, Structural, Hash)]
pub struct IVec3 {
    pub x: i32,
    pub y: i32,
    pub z: i32,
}

/// The coordinates of an [`IVec3`] as a tuple, the form in which a grid point keys a map.
pub type Cell = (i32, i32, i32);

impl View for IVec3 {
    type V = Cell;

    open spec fn view(&self) -> Cell {
        (self.x, self.y, self.z)
    }
}

impl IVec3 {
    /// The vector `(x, y, z)`.
    pub fn new(x: i32, y: i32, z: i32) -> (v: IVec3)
        ensures
            v == (IVec3 { x, y, z }),
    {
        IVec3 { x, y, z }
    }

    /// The vector `(n, n, n)`.
    pub fn splat(n: i32) -> (v: IVec3)
        ensures
            v == (IVec3 { x: n, y: n, z: n }),
    {
        IVec3 { x: n, y: n, z: n }
    }

    /// The coordinates as a tuple.
    pub fn cell(&self) -> (c: Cell)
        ensures
            c == self@,
    {
        (self.x, self.y, self.z)
    }

    /// The vector with the coordinates of `c`.
    pub fn of_cell(c: Cell) -> (v: IVec3)
        ensures
            v@ == c,
    {
        IVec3 { x: c.0, y: c.1, z: c.2 }
    }

    /// The componentwise sum.
    pub fn plus(self, o: IVec3) -> (v: IVec3)
        requires
            i32::MIN <= self.x + o.x <= i32::MAX,
            i32::MIN <= self.y + o.y <= i32::MAX,
            i32::MIN <= self.z + o.z <= i32::MAX,
        ensures
            v.x == self.x + o.x,
            v.y == self.y + o.y,
            v.z == self.z + o.z,
    {
        IVec3 { x: self.x + o.x, y: self.y + o.y, z: self.z + o.z }
    }

    /// The componentwise difference.
    pub fn minus(self, o: IVec3) -> (v: IVec3)
        requires
            i32::MIN <= self.x - o.x <= i32::MAX,
            i32::MIN <= self.y - o.y <= i32::MAX,
            i32::MIN <= self.z - o.z <= i32::MAX,
        ensures
            v.x == self.x - o.x,
            v.y == self.y - o.y,
            v.z == self.z - o.z,
    {
        IVec3 { x: self.x - o.x, y: self.y - o.y, z: self.z - o.z }
    }

    /// The componentwise minimum.
    pub fn lower(self, o: IVec3) -> (v: IVec3)
        ensures
            v.x == if self.x <= o.x { self.x } else { o.x },
            v.y == if self.y <= o.y { self.y } else { o.y },
            v.z == if self.z <= o.z { self.z } else { o.z },
    {
        IVec3 {
            x: if self.x <= o.x { self.x } else { o.x },
            y: if self.y <= o.y { self.y } else { o.y },
            z: if self.z <= o.z { self.z } else { o.z },
        }
    }

    /// The componentwise maximum.
    pub fn upper(self, o: IVec3) -> (v: IVec3)
        ensures
            v.x == if self.x >= o.x { self.x } else { o.x },
            v.y == if self.y >= o.y { self.y } else { o.y },
            v.z == if self.z >= o.z { self.z } else { o.z },
    {
        IVec3 {
            x: if self.x >= o.x { self.x } else { o.x },
            y: if self.y >= o.y { self.y } else { o.y },
            z: if self.z >= o.z { self.z } else { o.z },
        }
    }
}

/// Floor division by eight, the quotient of the Euclidean division.
pub fn floor_div8(n: i32) -> (q: i32)
    ensures
        q as int == n as int / 8,
{
    if n >= 0 {
        n / 8
    } else {
        -((-(n + 1)) / 8) - 1
    }
}

/// The remainder of the Euclidean division by eight, in `0..8`.
pub fn floor_rem8(n: i32) -> (r: i32)
    ensures
        r as int == n as int % 8,
        0 <= r < 8,
{
    let q: i32 = floor_div8(n);
    n - q * 8
}

/// A vector stands for the cell with its coordinates, in their order.
pub proof fn law_cell_of_a_vector(v: IVec3)
    ensures
        v@.0 == v.x,
        v@.1 == v.y,
        v@.2 == v.z,
{
}

} // verus!
