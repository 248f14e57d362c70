//! Identifiers from the 4D math layer that carry no numbers.

use vstd::prelude::*;

verus! {

/// The six coordinate planes of 4D space, in which rotations act.
#[derive(Clone, Copy, Debug, PartialEq, Eq, Hash, Structural)]
pub enum RotationPlane {
    /// XY plane - standard yaw (rotation around Z axis in 3D)
    XY,
    /// XZ plane - standard pitch (rotation around Y axis in 3D)
    XZ,
    /// YZ plane - standard roll (rotation around X axis in 3D)
    YZ,
    /// XW plane - ana-kata rotation affecting X
    XW,
    /// YW plane - ana-kata rotation affecting Y
    YW,
    /// ZW plane - ana-kata rotation affecting Z (W-roll in 4D Golf)
    ZW,
}

impl RotationPlane {
    /// The two axes (0 = X, 1 = Y, 2 = Z, 3 = W) spanning the plane, lower first.
    pub fn axes(&self) -> (r: (u8, u8))
        ensures
            r.0 < r.1 < 4,
            *self == RotationPlane::XY ==> r == (0u8, 1u8),
            *self == RotationPlane::XZ ==> r == (0u8, 2u8),
            *self == RotationPlane::YZ ==> r == (1u8, 2u8),
            *self == RotationPlane::XW ==> r == (0u8, 3u8),
            *self == RotationPlane::YW ==> r == (1u8, 3u8),
            *self == RotationPlane::ZW ==> r == (2u8, 3u8),
    {
        match self {
            RotationPlane::XY => (0, 1),
            RotationPlane::XZ => (0, 2),
            RotationPlane::YZ => (1, 2),
            RotationPlane::XW => (0, 3),
            RotationPlane::YW => (1, 3),
            RotationPlane::ZW => (2, 3),
        }
    }
}

/// Default boundary refinement level of a hypersphere in a scene file.
pub fn default_sphere_subdivisions() -> (r: u32)
    ensures
        r == 2,
{
    2
}

/// Default circle resolution of the curved primitives in a scene file.
pub fn default_segments() -> (r: u32)
    ensures
        r == 24,
{
    24
}

} // verus!
