use vstd::prelude::*;

verus! {

/// Highest tile id that has a texture in the tile atlas.
pub const MAX_TILE_ID: u8 = 9;

/// One terrain cell; id 0 is empty space.
#[derive(Clone, Copy, Debug, PartialEq, Eq, Structural)]
pub struct Tile {
    pub id: u8,
}

impl Tile {
    pub open spec fn is_solid(self) -> bool {
        self.id != 0
    }

    /// Whether the tile blocks: every non-empty tile is solid.
    pub fn solid(&self) -> (r: bool)
        ensures
            r == self.is_solid(),
    {
        self.id != 0
    }
}

} // verus!
