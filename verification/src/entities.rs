use vstd::prelude::*;

use crate::arena::Slot;
use crate::handle::Handle;
use crate::math::{Vec2, vec2_in_range, POS_LIMIT, VEL_LIMIT, EXTENT_LIMIT};

verus! {

/// Whether a body is moved by the integrator or fixed in place.
#[derive(Clone, Copy, PartialEq, Eq, Structural, Debug)]
pub enum BodyKind {
    Dynamic,
    Static,
}

/// A rigid body: its kind and its current position and velocity. A body owns
/// the lifetime of its colliders; the ownership edge is recorded on each
/// collider as a back-reference to its one parent body.
#[derive(Clone, Copy, PartialEq, Eq, Structural, Debug)]
pub struct RigidBody {
    pub kind: BodyKind,
    pub pos: Vec2,
    pub vel: Vec2,
}

/// A collider: an axis-aligned box of the given half-extents, centred on its
/// parent body's position. `parent` records which body it belongs to.
#[derive(Clone, Copy, PartialEq, Eq, Structural, Debug)]
pub struct Collider {
    pub parent: Handle,
    pub half_extents: Vec2,
}

/// A joint constrains two bodies, referenced by handle.
#[derive(Clone, Copy, PartialEq, Eq, Structural, Debug)]
pub struct Joint {
    pub body1: Handle,
    pub body2: Handle,
}

/// Per-step configuration, read-only during a step: the fixed time step is
/// `1 / inv_dt` seconds. `solver_iterations` is carried for a constraint
/// solver, but this model's integrator solves no constraints (the solver's
/// numerical method is outside the model), so the field never influences a
/// verified result.
#[derive(Clone, Copy, PartialEq, Eq, Structural, Debug)]
pub struct IntegrationParameters {
    pub inv_dt: u32,
    pub solver_iterations: u32,
}

impl IntegrationParameters {
    /// The time step must be a positive, finite duration.
    pub open spec fn wf(self) -> bool {
        self.inv_dt >= 1
    }
}

/// A body's state stays within the fixed-point coordinate ranges.
pub open spec fn body_wf(b: RigidBody) -> bool {
    &&& vec2_in_range(b.pos, POS_LIMIT as int)
    &&& vec2_in_range(b.vel, VEL_LIMIT as int)
}

/// A collider's box has non-negative, bounded half-extents.
pub open spec fn collider_wf(c: Collider) -> bool {
    &&& 0 <= c.half_extents.x <= EXTENT_LIMIT
    &&& 0 <= c.half_extents.y <= EXTENT_LIMIT
}

/// Every stored body is within the coordinate ranges.
pub open spec fn bodies_wf(s: Seq<Slot<RigidBody>>) -> bool {
    forall|i: int|
        0 <= i < s.len() ==> ((#[trigger] s[i]).payload is Some ==> body_wf(s[i].payload->0))
}

/// Every stored collider has a well-formed box.
pub open spec fn colliders_wf(s: Seq<Slot<Collider>>) -> bool {
    forall|i: int|
        0 <= i < s.len() ==> ((#[trigger] s[i]).payload is Some ==> collider_wf(s[i].payload->0))
}

} // verus!
