use vstd::prelude::*;

verus! {

/// One placed cell: its coordinates within its region, the short ID of the
/// client that placed it, and when (seconds since the Unix epoch).
#[derive(Clone, Copy, Debug, PartialEq, Eq, Structural)]
pub struct Tile {
    pub x: i32,
    pub y: i32,
    pub z: i32,
    pub player: u8,
    pub timestamp: i64,
}

impl Tile {
    /// Whether this tile stands at `(x, y, z)`.
    pub open spec fn at(self, x: i32, y: i32, z: i32) -> bool {
        self.x == x && self.y == y && self.z == z
    }
}

} // verus!
