use vstd::prelude::*;

verus! {

/// How the vertices of a sprite are obtained from its position and the camera.
#[derive(Copy, Clone, PartialEq, Eq, Structural)]
pub enum SpriteOrientation {
    ParallelToCameraPlane,
    FacingTowardsCamera,
    AlignToZAxisParallelToCameraPlane,
    AlignToZAxisFacingTowardsCamera,
}

} // verus!
