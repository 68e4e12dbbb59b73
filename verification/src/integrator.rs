use vstd::prelude::*;

use crate::arena::{Arena, Slot};
use crate::entities::{bodies_wf, body_wf, BodyKind, IntegrationParameters, RigidBody};
use crate::math::{
    clamp_spec, clamp_to, div_by, div_trunc, vec2_in_range, Vec2, GRAV_LIMIT, POS_LIMIT, VEL_LIMIT,
};

verus! {

/// The dynamics integrator's effect on one body over one fixed time step:
/// gravity is applied to the velocity of a dynamic body, the velocity is
/// clamped into range, and the position advances by one step of the new
/// velocity, clamped into range. Static bodies are untouched. The integrator
/// models unconstrained motion only: it consumes neither contacts, joints
/// nor `solver_iterations` — the constraint solver's numerical method is a
/// black box outside this model.
pub open spec fn integrate_body_spec(b: RigidBody, gravity: Vec2, inv_dt: u32) -> RigidBody
    recommends
        inv_dt >= 1,
{
    if b.kind is Dynamic {
        let vx = clamp_spec(b.vel.x + div_trunc(gravity.x as int, inv_dt as int), VEL_LIMIT as int);
        let vy = clamp_spec(b.vel.y + div_trunc(gravity.y as int, inv_dt as int), VEL_LIMIT as int);
        let px = clamp_spec(b.pos.x + div_trunc(vx, inv_dt as int), POS_LIMIT as int);
        let py = clamp_spec(b.pos.y + div_trunc(vy, inv_dt as int), POS_LIMIT as int);
        RigidBody {
            kind: b.kind,
            pos: Vec2 { x: px as i64, y: py as i64 },
            vel: Vec2 { x: vx as i64, y: vy as i64 },
        }
    } else {
        b
    }
}

/// Advances one body by one fixed time step, exactly as
/// `integrate_body_spec` says; the result is again within the coordinate
/// ranges.
pub fn integrate_body(b: RigidBody, gravity: Vec2, params: &IntegrationParameters) -> (r:
    RigidBody)
    requires
        body_wf(b),
        vec2_in_range(gravity, GRAV_LIMIT as int),
        params.wf(),
    ensures
        r == integrate_body_spec(b, gravity, params.inv_dt),
        body_wf(r),
        r.kind == b.kind,
{
    match b.kind {
        BodyKind::Dynamic => {
            let dvx = div_by(gravity.x, params.inv_dt);
            let dvy = div_by(gravity.y, params.inv_dt);
            let vx = clamp_to(b.vel.x + dvx, VEL_LIMIT);
            let vy = clamp_to(b.vel.y + dvy, VEL_LIMIT);
            let dpx = div_by(vx, params.inv_dt);
            let dpy = div_by(vy, params.inv_dt);
            let px = clamp_to(b.pos.x + dpx, POS_LIMIT);
            let py = clamp_to(b.pos.y + dpy, POS_LIMIT);
            RigidBody { kind: b.kind, pos: Vec2 { x: px, y: py }, vel: Vec2 { x: vx, y: vy } }
        },
        BodyKind::Static => b,
    }
}

/// The integrator's effect on a whole body set: every stored dynamic body
/// advances by one step; slot generations, occupancy, and static bodies are
/// untouched.
pub open spec fn integrate_slots_spec(
    s: Seq<Slot<RigidBody>>,
    gravity: Vec2,
    inv_dt: u32,
) -> Seq<Slot<RigidBody>> {
    Seq::new(
        s.len(),
        |i: int|
            Slot {
                generation: s[i].generation,
                payload: if s[i].payload is Some {
                    Some(integrate_body_spec(s[i].payload->0, gravity, inv_dt))
                } else {
                    None
                },
            },
    )
}

/// Applies gravity to every dynamic body and advances it by one fixed step,
/// exactly as `integrate_slots_spec` says, in slot order.
pub fn integrate_all(bodies: &mut Arena<RigidBody>, gravity: Vec2, params: &IntegrationParameters)
    requires
        bodies_wf(old(bodies).slots@),
        vec2_in_range(gravity, GRAV_LIMIT as int),
        params.wf(),
    ensures
        final(bodies).slots@ == integrate_slots_spec(old(bodies).slots@, gravity, params.inv_dt),
        bodies_wf(final(bodies).slots@),
{
    let n = bodies.slots.len();
    let mut i: usize = 0;
    while i < n
        invariant
            bodies_wf(old(bodies).slots@),
            vec2_in_range(gravity, GRAV_LIMIT as int),
            params.wf(),
            n == bodies.slots@.len(),
            n == old(bodies).slots@.len(),
            0 <= i <= n,
            forall|j: int| i <= j < n ==> bodies.slots@[j] == old(bodies).slots@[j],
            forall|j: int|
                0 <= j < i ==> bodies.slots@[j] == integrate_slots_spec(
                    old(bodies).slots@,
                    gravity,
                    params.inv_dt,
                )[j],
            forall|j: int|
                0 <= j < i ==> ((#[trigger] bodies.slots@[j]).payload is Some ==> body_wf(
                    bodies.slots@[j].payload->0,
                )),
        decreases n - i,
    {
        let g = bodies.slots[i].generation;
        match bodies.slots[i].payload {
            Some(b) => {
                proof {
                    assert(old(bodies).slots@[i as int].payload is Some);
                }
                let nb = integrate_body(b, gravity, params);
                bodies.slots[i] = Slot { generation: g, payload: Some(nb) };
            },
            None => {},
        }
        i = i + 1;
    }
    proof {
        assert(bodies.slots@ =~= integrate_slots_spec(old(bodies).slots@, gravity, params.inv_dt));
    }
}

} // verus!
