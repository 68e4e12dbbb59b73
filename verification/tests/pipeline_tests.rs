use physics_pipeline::entities::{BodyKind, Collider, IntegrationParameters, RigidBody};
use physics_pipeline::handle::Handle;
use physics_pipeline::math::{Vec2, VEL_LIMIT};
use physics_pipeline::pipeline::PhysicsPipeline;

fn params_60hz() -> IntegrationParameters {
    IntegrationParameters { inv_dt: 60, solver_iterations: 4 }
}

fn dynamic_body(x: i64, y: i64) -> RigidBody {
    RigidBody { kind: BodyKind::Dynamic, pos: Vec2 { x, y }, vel: Vec2 { x: 0, y: 0 } }
}

fn static_body(x: i64, y: i64) -> RigidBody {
    RigidBody { kind: BodyKind::Static, pos: Vec2 { x, y }, vel: Vec2 { x: 0, y: 0 } }
}

/// Whole observable world state, collected through the public accessors.
fn snapshot(p: &PhysicsPipeline, bodies: &[Handle], colliders: &[Handle]) -> String {
    let mut out = String::new();
    for h in bodies {
        out.push_str(&format!("body {:?} -> {:?}\n", h, p.body(*h)));
    }
    for h in colliders {
        out.push_str(&format!("collider {:?} -> {:?}\n", h, p.collider(*h)));
    }
    for k in 0..p.entry_count() {
        out.push_str(&format!("entry {:?}\n", p.entry_at(k)));
    }
    for k in 0..p.candidate_count() {
        out.push_str(&format!("candidate {:?}\n", p.candidate_at(k)));
    }
    for k in 0..p.contact_count() {
        out.push_str(&format!("contact {:?}\n", p.contact_at(k)));
    }
    out
}

#[test]
fn falling_body_over_floor() {
    // one dynamic body at the origin, one static floor collider far below,
    // gravity -9.8 m/s^2 in micro-units, a 1/60 s step
    let mut p = PhysicsPipeline::new();
    let ball = p.insert_body(dynamic_body(0, 0));
    let floor = p.insert_body(static_body(0, -5_000_000));
    let floor_box = p.insert_collider(floor, Vec2 { x: 1_000_000, y: 100_000 }).unwrap();
    p.step(Vec2 { x: 0, y: -9_800_000 }, &params_60hz());
    let b = p.body(ball).unwrap();
    // velocity gained one step of gravity: -9_800_000 / 60, truncated
    assert_eq!(b.vel.y, -163_333);
    assert_eq!(b.vel.x, 0);
    // position advanced one step of the new velocity: -163_333 / 60, truncated
    assert_eq!(b.pos.y, -2_722);
    assert_eq!(b.pos.x, 0);
    // the floor is indexed, nothing touches, no contact yet
    assert_eq!(p.entry_count(), 1);
    assert_eq!(p.entry_at(0).collider, floor_box);
    assert_eq!(p.candidate_count(), 0);
    assert_eq!(p.contact_count(), 0);
    // the static floor does not move
    let f = p.body(floor).unwrap();
    assert_eq!(f.pos, Vec2 { x: 0, y: -5_000_000 });
    assert_eq!(f.vel, Vec2 { x: 0, y: 0 });
}

#[test]
fn overlapping_boxes_make_a_contact() {
    let mut p = PhysicsPipeline::new();
    let a = p.insert_body(static_body(0, 0));
    let b = p.insert_body(static_body(150, 0));
    let ca = p.insert_collider(a, Vec2 { x: 100, y: 100 }).unwrap();
    let cb = p.insert_collider(b, Vec2 { x: 100, y: 100 }).unwrap();
    p.step(Vec2 { x: 0, y: 0 }, &params_60hz());
    assert_eq!(p.entry_count(), 2);
    assert_eq!(p.candidate_count(), 1);
    assert_eq!(p.contact_count(), 1);
    let c = p.contact_at(0);
    assert_eq!(c.first, ca);
    assert_eq!(c.second, cb);
    // boxes [-100, 100] and [50, 250]: overlap 100 - 50 on x, full 200 on y
    assert_eq!(c.pen_x, 50);
    assert_eq!(c.pen_y, 200);
}

#[test]
fn touching_boxes_get_a_zero_depth_manifold() {
    let mut p = PhysicsPipeline::new();
    let a = p.insert_body(static_body(0, 0));
    let b = p.insert_body(static_body(200, 0));
    let _ca = p.insert_collider(a, Vec2 { x: 100, y: 100 }).unwrap();
    let _cb = p.insert_collider(b, Vec2 { x: 100, y: 100 }).unwrap();
    p.step(Vec2 { x: 0, y: 0 }, &params_60hz());
    // edges meet exactly: the pair is a candidate, and the narrow phase
    // keeps one manifold per candidate pair — here with zero depth on x
    assert_eq!(p.candidate_count(), 1);
    assert_eq!(p.contact_count(), 1);
    let c = p.contact_at(0);
    assert_eq!(c.pen_x, 0);
    assert_eq!(c.pen_y, 200);
}

#[test]
fn every_candidate_pair_has_exactly_one_manifold() {
    let mut p = PhysicsPipeline::new();
    // three boxes in a row: neighbours touch, the ends do not
    let a = p.insert_body(static_body(0, 0));
    let b = p.insert_body(static_body(200, 0));
    let c = p.insert_body(static_body(400, 0));
    let _ca = p.insert_collider(a, Vec2 { x: 100, y: 100 }).unwrap();
    let _cb = p.insert_collider(b, Vec2 { x: 100, y: 100 }).unwrap();
    let _cc = p.insert_collider(c, Vec2 { x: 100, y: 100 }).unwrap();
    p.step(Vec2 { x: 0, y: 0 }, &params_60hz());
    // a manifold exists iff the broad phase reports the pair, one per pair
    assert_eq!(p.candidate_count(), 2);
    assert_eq!(p.contact_count(), 2);
    for k in 0..p.candidate_count() {
        let pair = p.candidate_at(k);
        let m = p.contact_at(k);
        assert_eq!(m.first, pair.first.collider);
        assert_eq!(m.second, pair.second.collider);
    }
}

#[test]
fn velocity_is_clamped() {
    let mut p = PhysicsPipeline::new();
    let b = p.insert_body(RigidBody {
        kind: BodyKind::Dynamic,
        pos: Vec2 { x: 0, y: 0 },
        vel: Vec2 { x: 0, y: VEL_LIMIT },
    });
    // gravity pushes the velocity past the limit; it saturates there
    p.step(Vec2 { x: 0, y: 9_800_000 }, &params_60hz());
    assert_eq!(p.body(b).unwrap().vel.y, VEL_LIMIT);
}

#[test]
fn step_is_deterministic() {
    let build = || {
        let mut p = PhysicsPipeline::new();
        let a = p.insert_body(dynamic_body(0, 0));
        let f = p.insert_body(static_body(0, -300));
        let ca = p.insert_collider(a, Vec2 { x: 200, y: 200 }).unwrap();
        let cf = p.insert_collider(f, Vec2 { x: 500, y: 100 }).unwrap();
        let j = p.insert_joint(a, f).unwrap();
        (p, vec![a, f], vec![ca, cf], j)
    };
    let (mut p1, bodies1, colliders1, _j1) = build();
    let (mut p2, bodies2, colliders2, _j2) = build();
    for _ in 0..3 {
        p1.step(Vec2 { x: 100, y: -9_800_000 }, &params_60hz());
        p2.step(Vec2 { x: 100, y: -9_800_000 }, &params_60hz());
    }
    assert_eq!(
        snapshot(&p1, &bodies1, &colliders1),
        snapshot(&p2, &bodies2, &colliders2)
    );
}

#[test]
fn remove_collider_purges_everything() {
    let mut p = PhysicsPipeline::new();
    let a = p.insert_body(static_body(0, 0));
    let b = p.insert_body(static_body(50, 0));
    let ca = p.insert_collider(a, Vec2 { x: 100, y: 100 }).unwrap();
    let cb = p.insert_collider(b, Vec2 { x: 100, y: 100 }).unwrap();
    p.step(Vec2 { x: 0, y: 0 }, &params_60hz());
    assert_eq!(p.candidate_count(), 1);
    assert_eq!(p.contact_count(), 1);
    p.remove_collider(ca);
    assert!(p.collider(ca).is_none());
    assert!(p.collider(cb).is_some());
    // every dependent structure dropped its references synchronously
    assert_eq!(p.entry_count(), 1);
    assert_eq!(p.entry_at(0).collider, cb);
    assert_eq!(p.candidate_count(), 0);
    assert_eq!(p.contact_count(), 0);
    // the bodies are untouched
    assert!(p.body(a).is_some());
    assert!(p.body(b).is_some());
}

#[test]
fn remove_collider_twice_equals_once() {
    let mut p = PhysicsPipeline::new();
    let a = p.insert_body(static_body(0, 0));
    let b = p.insert_body(static_body(50, 0));
    let ca = p.insert_collider(a, Vec2 { x: 100, y: 100 }).unwrap();
    let cb = p.insert_collider(b, Vec2 { x: 100, y: 100 }).unwrap();
    p.step(Vec2 { x: 0, y: 0 }, &params_60hz());
    p.remove_collider(ca);
    let once = snapshot(&p, &[a, b], &[ca, cb]);
    p.remove_collider(ca);
    let twice = snapshot(&p, &[a, b], &[ca, cb]);
    assert_eq!(once, twice);
}

#[test]
fn remove_already_removed_collider_is_silent_noop() {
    let mut p = PhysicsPipeline::new();
    let a = p.insert_body(static_body(0, 0));
    let ca = p.insert_collider(a, Vec2 { x: 100, y: 100 }).unwrap();
    p.step(Vec2 { x: 0, y: 0 }, &params_60hz());
    p.remove_collider(ca);
    let before = snapshot(&p, &[a], &[ca]);
    // removing the stale handle again returns without error and changes nothing
    p.remove_collider(ca);
    let after = snapshot(&p, &[a], &[ca]);
    assert_eq!(before, after);
    assert!(p.body(a).is_some());
}

#[test]
fn remove_body_cascades() {
    let mut p = PhysicsPipeline::new();
    let doomed = p.insert_body(dynamic_body(0, 0));
    let other = p.insert_body(static_body(1000, 0));
    let c1 = p.insert_collider(doomed, Vec2 { x: 100, y: 100 }).unwrap();
    let c2 = p.insert_collider(doomed, Vec2 { x: 50, y: 50 }).unwrap();
    let c3 = p.insert_collider(other, Vec2 { x: 100, y: 100 }).unwrap();
    let j1 = p.insert_joint(doomed, other).unwrap();
    let j2 = p.insert_joint(other, doomed).unwrap();
    p.step(Vec2 { x: 0, y: 0 }, &params_60hz());
    p.remove_body(doomed);
    // the body, both owned colliders and both referencing joints are gone
    assert!(p.body(doomed).is_none());
    assert!(p.collider(c1).is_none());
    assert!(p.collider(c2).is_none());
    assert!(p.joint(j1).is_none());
    assert!(p.joint(j2).is_none());
    // the unrelated body and its collider survive
    assert!(p.body(other).is_some());
    assert_eq!(p.collider(c3).unwrap().parent, other);
    // no broad- or narrow-phase reference to anything removed
    for k in 0..p.entry_count() {
        assert!(p.collider(p.entry_at(k).collider).is_some());
    }
    for k in 0..p.candidate_count() {
        let pair = p.candidate_at(k);
        assert!(p.collider(pair.first.collider).is_some());
        assert!(p.collider(pair.second.collider).is_some());
    }
    for k in 0..p.contact_count() {
        let c = p.contact_at(k);
        assert!(p.collider(c.first).is_some());
        assert!(p.collider(c.second).is_some());
    }
}

#[test]
fn no_dangling_after_removals() {
    let mut p = PhysicsPipeline::new();
    let mut bodies = Vec::new();
    let mut colliders = Vec::new();
    for i in 0..5i64 {
        let b = p.insert_body(static_body(i * 120, 0));
        colliders.push(p.insert_collider(b, Vec2 { x: 100, y: 100 }).unwrap());
        bodies.push(b);
    }
    p.step(Vec2 { x: 0, y: 0 }, &params_60hz());
    assert!(p.contact_count() > 0);
    p.remove_collider(colliders[1]);
    p.remove_body(bodies[3]);
    for k in 0..p.entry_count() {
        assert!(p.collider(p.entry_at(k).collider).is_some());
    }
    for k in 0..p.candidate_count() {
        let pair = p.candidate_at(k);
        assert!(p.collider(pair.first.collider).is_some());
        assert!(p.collider(pair.second.collider).is_some());
    }
    for k in 0..p.contact_count() {
        let c = p.contact_at(k);
        assert!(p.collider(c.first).is_some());
        assert!(p.collider(c.second).is_some());
    }
}

#[test]
fn stale_body_handle_never_resolves_again() {
    let mut p = PhysicsPipeline::new();
    let b = p.insert_body(static_body(0, 0));
    p.remove_body(b);
    assert!(p.body(b).is_none());
    // a later insertion reuses the slot at a bumped generation, so the old
    // handle still reports not-found, never the new occupant
    let b2 = p.insert_body(static_body(5, 5));
    assert_eq!(b2.index, b.index);
    assert_eq!(b2.generation, b.generation + 1);
    assert!(p.body(b).is_none());
    assert!(p.body(b2).is_some());
}

#[test]
fn insert_with_stale_handles_is_refused() {
    let mut p = PhysicsPipeline::new();
    let b = p.insert_body(static_body(0, 0));
    p.remove_body(b);
    assert!(p.insert_collider(b, Vec2 { x: 10, y: 10 }).is_none());
    assert!(p.insert_joint(b, b).is_none());
    let never = Handle { index: 42, generation: 0 };
    assert!(p.insert_collider(never, Vec2 { x: 10, y: 10 }).is_none());
}

#[test]
fn step_reindexes_new_and_moved_colliders() {
    let mut p = PhysicsPipeline::new();
    let a = p.insert_body(dynamic_body(0, 0));
    let ca = p.insert_collider(a, Vec2 { x: 10, y: 10 }).unwrap();
    // nothing indexed before the first step
    assert_eq!(p.entry_count(), 0);
    p.step(Vec2 { x: 0, y: 0 }, &params_60hz());
    assert_eq!(p.entry_count(), 1);
    let first = p.entry_at(0);
    assert_eq!(first.collider, ca);
    assert_eq!((first.min_x, first.max_x), (-10, 10));
    // the body moves during this step; the entries still show where it stood
    // when the step began
    p.step(Vec2 { x: 60_000_000, y: 0 }, &params_60hz());
    let second = p.entry_at(0);
    assert_eq!((second.min_x, second.max_x), (-10, 10));
    // velocity 60_000_000 / 60 = 1_000_000; position 1_000_000 / 60 = 16_666;
    // the next step re-indexes the collider at the new spot
    p.step(Vec2 { x: 0, y: 0 }, &params_60hz());
    let third = p.entry_at(0);
    assert_eq!((third.min_x, third.max_x), (16_656, 16_676));
}
