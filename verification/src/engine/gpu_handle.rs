use vstd::prelude::*;

verus! {

/// Identifies a mesh that the renderer has uploaded: the slot index and the
/// generation of the slot, as the renderer's asset arena hands them out.
#[derive(Clone, Copy, Debug, PartialEq, Eq, Structural)]
pub struct MeshHandle {
    pub index: u32,
    pub generation: u32,
}

/// Identifies a material known to the renderer (slot index and generation).
#[derive(Clone, Copy, Debug, PartialEq, Eq, Structural)]
pub struct MaterialHandle {
    pub index: u32,
    pub generation: u32,
}

} // verus!
