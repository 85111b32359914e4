use vstd::prelude::*;

verus! {

/// A hex position in cube coordinates (`q + r + s == 0` for positions on a map).
#[derive(Clone, Copy, Debug, PartialEq, Eq, Structural)]
pub struct HexCoord {
    pub q: i32,
    pub r: i32,
    pub s: i32,
}

/// Absolute value of an integer.
pub open spec fn abs(x: int) -> int {
    if x < 0 { -x } else { x }
}

impl HexCoord {
    /// The position lies on the cube-coordinate plane `q + r + s == 0`.
    pub open spec fn on_plane(self) -> bool {
        self.q + self.r + self.s == 0
    }

    /// Hex distance from the origin.
    pub open spec fn ring_index(self) -> int {
        vstd::math::max(vstd::math::max(abs(self.q as int), abs(self.r as int)), abs(self.s as int))
    }

    /// The position is on the plane and at most `radius` steps from the origin.
    pub open spec fn in_disk(self, radius: int) -> bool {
        self.on_plane() && self.ring_index() <= radius
    }

    /// Creates a position from its three cube coordinates.
    pub fn new(q: i32, r: i32, s: i32) -> (c: HexCoord)
        ensures
            c.q == q,
            c.r == r,
            c.s == s,
    {
        HexCoord { q, r, s }
    }
}

/// The six neighbours of a hex, starting north-east and going clockwise:
/// offsets (1, 0, -1), (1, -1, 0), (0, -1, 1), (-1, 0, 1), (-1, 1, 0), (0, 1, -1).
pub open spec fn spec_neighbors(c: HexCoord) -> Seq<HexCoord> {
    seq![
        HexCoord { q: (c.q + 1) as i32, r: c.r, s: (c.s - 1) as i32 },
        HexCoord { q: (c.q + 1) as i32, r: (c.r - 1) as i32, s: c.s },
        HexCoord { q: c.q, r: (c.r - 1) as i32, s: (c.s + 1) as i32 },
        HexCoord { q: (c.q - 1) as i32, r: c.r, s: (c.s + 1) as i32 },
        HexCoord { q: (c.q - 1) as i32, r: (c.r + 1) as i32, s: c.s },
        HexCoord { q: c.q, r: (c.r + 1) as i32, s: (c.s - 1) as i32 },
    ]
}

/// No coordinate of the hex is at either end of the `i32` range, so all its
/// neighbours can be computed.
pub open spec fn neighbors_fit(c: HexCoord) -> bool {
    &&& i32::MIN < c.q < i32::MAX
    &&& i32::MIN < c.r < i32::MAX
    &&& i32::MIN < c.s < i32::MAX
}

impl HexCoord {
    /// The six neighbours of this hex, north-east first, then clockwise.
    pub fn neighbors(self) -> (v: Vec<HexCoord>)
        requires
            neighbors_fit(self),
        ensures
            v@ == spec_neighbors(self),
    {
        let mut v: Vec<HexCoord> = Vec::new();
        v.push(HexCoord { q: self.q + 1, r: self.r, s: self.s - 1 });
        v.push(HexCoord { q: self.q + 1, r: self.r - 1, s: self.s });
        v.push(HexCoord { q: self.q, r: self.r - 1, s: self.s + 1 });
        v.push(HexCoord { q: self.q - 1, r: self.r, s: self.s + 1 });
        v.push(HexCoord { q: self.q - 1, r: self.r + 1, s: self.s });
        v.push(HexCoord { q: self.q, r: self.r + 1, s: self.s - 1 });
        assert(v@ =~= spec_neighbors(self));
        v
    }
}

} // verus!
