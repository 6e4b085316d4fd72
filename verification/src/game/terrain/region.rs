use vstd::prelude::*;

verus! {

/// Width, in chunks, of a square region of chunks.
pub const REGION_WIDTH: i32 = 16;

/// Position of a region in region space.
#[derive(Clone, Copy, Debug, PartialEq, Eq, Hash, Structural)]
pub struct RegionPosition {
    pub x: i32,
    pub y: i32,
}

} // verus!
