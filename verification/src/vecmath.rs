//! Integer fixed-point spatial values.
//!
//! World coordinates are carried as signed 64-bit fixed-point numbers; the
//! geometric edge (field distance evaluation, orientation handling) converts
//! to and from its own representation outside this crate.  Coordinates are
//! bounded by [`COORD_LIMIT`] so that the difference of any two well-formed
//! coordinates fits in an `i64`, which is what relativization computes.

use vstd::prelude::*;

verus! {

/// Largest magnitude a well-formed world coordinate may have.
pub const COORD_LIMIT: i64 = 0x3fff_ffff_ffff_ffff;

/// A point or direction in world or handler-local space.
#[derive(Clone, Copy, Debug, PartialEq, Eq, Structural)]
pub struct Vec3 {
    pub x: i64,
    pub y: i64,
    pub z: i64,
}

impl Vec3 {
    /// All components within the world-coordinate bound.
    pub open spec fn wf(self) -> bool {
        &&& -COORD_LIMIT <= self.x <= COORD_LIMIT
        &&& -COORD_LIMIT <= self.y <= COORD_LIMIT
        &&& -COORD_LIMIT <= self.z <= COORD_LIMIT
    }

    /// Componentwise difference, the relativization of `self` against an
    /// origin `o` (a translation into `o`'s local frame).
    pub fn sub(self, o: Vec3) -> (r: Vec3)
        requires
            self.wf(),
            o.wf(),
        ensures
            r.x == self.x - o.x,
            r.y == self.y - o.y,
            r.z == self.z - o.z,
    {
        Vec3 { x: self.x - o.x, y: self.y - o.y, z: self.z - o.z }
    }
}

/// Pose of an entity: a translation in world space.
///
/// Orientation belongs to the geometric edge together with the field distance
/// evaluation; the engine's own relativization acts on positions.
#[derive(Clone, Copy, Debug, PartialEq, Eq, Structural)]
pub struct Transform {
    pub position: Vec3,
}

impl Transform {
    pub open spec fn wf(self) -> bool {
        self.position.wf()
    }
}

/// Magnitude of a signed field distance, as used by onion-skin ranking.
pub open spec fn spec_abs(d: int) -> int {
    if d < 0 {
        -d
    } else {
        d
    }
}

/// Absolute value of a signed distance, widened so `i64::MIN` is handled.
pub fn abs_dist(d: i64) -> (r: u64)
    ensures
        r == spec_abs(d as int),
{
    if d < 0 {
        if d == i64::MIN {
            9223372036854775808u64
        } else {
            (-d) as u64
        }
    } else {
        d as u64
    }
}

} // verus!
