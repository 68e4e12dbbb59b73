use vstd::prelude::*;

use crate::arena::{seq_free, seq_live, seq_payload, Arena, Slot};
use crate::broad_phase::{
    entry_in_range, spec_candidates, spec_entries, BpEntry, BroadPhase, CandidatePair,
};
use crate::entities::{
    bodies_wf, body_wf, collider_wf, colliders_wf, Collider, IntegrationParameters, Joint,
    RigidBody,
};
use crate::handle::Handle;
use crate::integrator::{integrate_all, integrate_slots_spec};
use crate::math::{vec2_in_range, Vec2, EXTENT_LIMIT, GRAV_LIMIT};
use crate::narrow_phase::{spec_contacts, Contact, NarrowPhase};

verus! {

/// Filtering keeps exactly the elements that satisfy the predicate: an
/// element is in the filtered sequence iff it is in the original and the
/// predicate holds of it.
pub proof fn lemma_filter_membership<T>(s: Seq<T>, pred: spec_fn(T) -> bool)
    ensures
        forall|e: T| #[trigger] s.filter(pred).contains(e) <==> (s.contains(e) && pred(e)),
{
    assert forall|e: T| #[trigger] s.filter(pred).contains(e) implies (s.contains(e) && pred(
        e,
    )) by {
        s.lemma_filter_contains_rev(pred, e);
        let i = choose|i: int| 0 <= i < s.filter(pred).len() && s.filter(pred)[i] == e;
        s.lemma_filter_pred(pred, i);
    }
    assert forall|e: T| (s.contains(e) && pred(e)) implies #[trigger] s.filter(pred).contains(
        e,
    ) by {
        let i = choose|i: int| 0 <= i < s.len() && s[i] == e;
        s.lemma_filter_contains(pred, i);
    }
}

/// A filter that keeps every element of the sequence leaves the sequence
/// unchanged.
pub proof fn lemma_filter_all<T>(s: Seq<T>, pred: spec_fn(T) -> bool)
    requires
        forall|k: int| 0 <= k < s.len() ==> pred(#[trigger] s[k]),
    ensures
        s.filter(pred) == s,
    decreases s.len(),
{
    if s.len() == 0 {
        s.lemma_filter_len(pred);
        assert(s.filter(pred) =~= s);
    } else {
        let rest = s.drop_last();
        let l = s.last();
        assert forall|k: int| 0 <= k < rest.len() implies pred(#[trigger] rest[k]) by {
            assert(rest[k] == s[k]);
        }
        lemma_filter_all(rest, pred);
        assert(s =~= rest.push(l));
        rest.lemma_filter_push(l, pred);
        assert(pred(s[s.len() - 1]));
    }
}

/// Two predicates that agree on every value filter a sequence identically.
pub proof fn lemma_filter_agree<T>(s: Seq<T>, p: spec_fn(T) -> bool, q: spec_fn(T) -> bool)
    requires
        forall|x: T| #[trigger] p(x) == q(x),
    ensures
        s.filter(p) == s.filter(q),
    decreases s.len(),
{
    if s.len() == 0 {
        s.lemma_filter_len(p);
        s.lemma_filter_len(q);
        assert(s.filter(p) =~= s.filter(q));
    } else {
        let rest = s.drop_last();
        let l = s.last();
        lemma_filter_agree(rest, p, q);
        assert(s =~= rest.push(l));
        rest.lemma_filter_push(l, p);
        rest.lemma_filter_push(l, q);
        assert(p(l) == q(l));
    }
}

/// Filtering twice is filtering once by any predicate equivalent to the
/// conjunction.
pub proof fn lemma_filter_chain<T>(
    s: Seq<T>,
    p: spec_fn(T) -> bool,
    q: spec_fn(T) -> bool,
    r: spec_fn(T) -> bool,
)
    requires
        forall|x: T| #[trigger] r(x) == (p(x) && q(x)),
    ensures
        s.filter(p).filter(q) == s.filter(r),
    decreases s.len(),
{
    if s.len() == 0 {
        s.lemma_filter_len(p);
        s.filter(p).lemma_filter_len(q);
        s.lemma_filter_len(r);
        assert(s.filter(p).filter(q) =~= s.filter(r));
    } else {
        let rest = s.drop_last();
        let l = s.last();
        lemma_filter_chain(rest, p, q, r);
        assert(s =~= rest.push(l));
        rest.lemma_filter_push(l, p);
        rest.filter(p).lemma_filter_push(l, q);
        rest.lemma_filter_push(l, r);
        assert(r(l) == (p(l) && q(l)));
    }
}

/// A collider that a body owns: a valid collider handle whose payload names
/// the body as its parent.
pub open spec fn collider_owned_by(
    colliders: Seq<Slot<Collider>>,
    owner: Handle,
    x: Handle,
) -> bool {
    seq_live(colliders, x) && seq_payload(colliders, x).parent == owner
}

/// As `collider_owned_by`, restricted to slots below `bound` (the part of
/// the collider set a removal scan has already visited).
pub open spec fn collider_owned_below(
    colliders: Seq<Slot<Collider>>,
    owner: Handle,
    bound: int,
    x: Handle,
) -> bool {
    collider_owned_by(colliders, owner, x) && (x.index as int) < bound
}

/// The coordinated removal's effect on the collider set and the derived
/// structures: a valid handle has its slot freed and every broad-phase entry,
/// candidate pair and contact manifold involving it dropped; a stale handle
/// means there is nothing to remove, and nothing changes.
pub open spec fn remove_collider_spec(
    colliders: Seq<Slot<Collider>>,
    entries: Seq<BpEntry>,
    cands: Seq<CandidatePair>,
    contacts: Seq<Contact>,
    h: Handle,
) -> (Seq<Slot<Collider>>, Seq<BpEntry>, Seq<CandidatePair>, Seq<Contact>) {
    if seq_live(colliders, h) {
        (
            seq_free(colliders, h),
            entries.filter(|e: BpEntry| e.collider != h),
            cands.filter(|p: CandidatePair| p.first.collider != h && p.second.collider != h),
            contacts.filter(|c: Contact| c.first != h && c.second != h),
        )
    } else {
        (colliders, entries, cands, contacts)
    }
}

/// Removal idempotence: removing the same collider handle twice leaves the
/// same state as removing it once — the first removal makes the handle
/// stale, so the second is a no-op.
pub proof fn lemma_remove_collider_idempotent(
    colliders: Seq<Slot<Collider>>,
    entries: Seq<BpEntry>,
    cands: Seq<CandidatePair>,
    contacts: Seq<Contact>,
    h: Handle,
)
    ensures
        ({
            let once = remove_collider_spec(colliders, entries, cands, contacts, h);
            remove_collider_spec(once.0, once.1, once.2, once.3, h) == once
        }),
{
    let once = remove_collider_spec(colliders, entries, cands, contacts, h);
    if seq_live(colliders, h) {
        assert(!seq_live(once.0, h));
    }
}

/// The step pipeline together with the entity sets and derived structures it
/// exclusively owns: bodies, colliders and joints, a broad phase and a narrow
/// phase kept consistent with them. `step` and the removal operations are the
/// only mutating entry points besides insertion.
pub struct PhysicsPipeline {
    pub bodies: Arena<RigidBody>,
    pub colliders: Arena<Collider>,
    pub joints: Arena<Joint>,
    pub broad_phase: BroadPhase,
    pub narrow_phase: NarrowPhase,
}

impl PhysicsPipeline {
    /// The cross-structure invariant every operation preserves: all stored
    /// payloads are in range, every collider's parent body is valid, every
    /// joint's bodies are valid, and every broad-phase entry, candidate side
    /// and contact side refers to a valid collider — no reachable structure
    /// holds a reference to a removed entity.
    pub open spec fn wf(self) -> bool {
        &&& self.bodies.wf()
        &&& self.colliders.wf()
        &&& self.joints.wf()
        &&& bodies_wf(self.bodies.slots@)
        &&& colliders_wf(self.colliders.slots@)
        &&& forall|i: int|
            0 <= i < self.colliders.slots@.len() ==> ((#[trigger] self.colliders.slots@[i]).payload
                is Some ==> seq_live(
                self.bodies.slots@,
                self.colliders.slots@[i].payload->0.parent,
            ))
        &&& forall|i: int|
            0 <= i < self.joints.slots@.len() ==> ((#[trigger] self.joints.slots@[i]).payload
                is Some ==> seq_live(self.bodies.slots@, self.joints.slots@[i].payload->0.body1)
                && seq_live(self.bodies.slots@, self.joints.slots@[i].payload->0.body2))
        &&& forall|k: int|
            0 <= k < self.broad_phase.entries@.len() ==> seq_live(
                self.colliders.slots@,
                (#[trigger] self.broad_phase.entries@[k]).collider,
            )
        &&& forall|k: int|
            0 <= k < self.broad_phase.entries@.len() ==> entry_in_range(
                #[trigger] self.broad_phase.entries@[k],
            )
        &&& forall|k: int|
            0 <= k < self.broad_phase.candidates@.len() ==> seq_live(
                self.colliders.slots@,
                (#[trigger] self.broad_phase.candidates@[k]).first.collider,
            ) && seq_live(self.colliders.slots@, self.broad_phase.candidates@[k].second.collider)
        &&& forall|k: int|
            0 <= k < self.broad_phase.candidates@.len() ==> entry_in_range(
                (#[trigger] self.broad_phase.candidates@[k]).first,
            ) && entry_in_range(self.broad_phase.candidates@[k].second)
        &&& forall|k: int|
            0 <= k < self.narrow_phase.contacts@.len() ==> seq_live(
                self.colliders.slots@,
                (#[trigger] self.narrow_phase.contacts@[k]).first,
            ) && seq_live(self.colliders.slots@, self.narrow_phase.contacts@[k].second)
    }

    /// An empty world: no entities, no derived state.
    pub fn new() -> (p: PhysicsPipeline)
        ensures
            p.wf(),
            p.bodies.slot_count() == 0,
            p.colliders.slot_count() == 0,
            p.joints.slot_count() == 0,
            p.broad_phase.entries@.len() == 0,
            p.broad_phase.candidates@.len() == 0,
            p.narrow_phase.contacts@.len() == 0,
    {
        PhysicsPipeline {
            bodies: Arena::new(),
            colliders: Arena::new(),
            joints: Arena::new(),
            broad_phase: BroadPhase::new(),
            narrow_phase: NarrowPhase::new(),
        }
    }

    /// Inserts a body and returns its fresh handle. Only the body set
    /// changes, and only by the allocation.
    pub fn insert_body(&mut self, body: RigidBody) -> (h: Handle)
        requires
            old(self).wf(),
            body_wf(body),
        ensures
            final(self).wf(),
            final(self).bodies.live(h),
            final(self).bodies.payload_of(h) == body,
            !old(self).bodies.live(h),
            forall|h2: Handle|
                h2 != h ==> (final(self).bodies.live(h2) <==> old(self).bodies.live(h2)),
            forall|h2: Handle|
                old(self).bodies.live(h2) ==> final(self).bodies.payload_of(h2) == old(self).bodies.payload_of(h2),
            old(self).bodies.evolves_to(final(self).bodies),
            h.generation == final(self).bodies.gen_at(h.index as int),
            forall|i: int|
                0 <= i < old(self).bodies.slot_count() ==> final(self).bodies.gen_at(i) == old(
                    self,
                ).bodies.gen_at(i),
            final(self).colliders == old(self).colliders,
            final(self).joints == old(self).joints,
            final(self).broad_phase == old(self).broad_phase,
            final(self).narrow_phase == old(self).narrow_phase,
    {
        let h = self.bodies.allocate(body);
        proof {
            assert forall|i: int|
                0 <= i < self.colliders.slots@.len() && (#[trigger] self.colliders.slots@[i]).payload
                    is Some implies seq_live(
                self.bodies.slots@,
                self.colliders.slots@[i].payload->0.parent,
            ) by {
                let parent = self.colliders.slots@[i].payload->0.parent;
                assert(seq_live(old(self).bodies.slots@, parent));
                assert(self.bodies.slots@[parent.index as int] == old(self).bodies.slots@[parent.index as int]);
            }
            assert forall|i: int|
                0 <= i < self.joints.slots@.len() && (#[trigger] self.joints.slots@[i]).payload
                    is Some implies seq_live(self.bodies.slots@, self.joints.slots@[i].payload->0.body1)
                && seq_live(self.bodies.slots@, self.joints.slots@[i].payload->0.body2) by {
                let j = self.joints.slots@[i].payload->0;
                assert(seq_live(old(self).bodies.slots@, j.body1));
                assert(seq_live(old(self).bodies.slots@, j.body2));
                assert(self.bodies.slots@[j.body1.index as int] == old(self).bodies.slots@[j.body1.index as int]);
                assert(self.bodies.slots@[j.body2.index as int] == old(self).bodies.slots@[j.body2.index as int]);
            }
        }
        h
    }

    /// Attaches a new collider, as an axis-aligned box of the given
    /// half-extents, to the body `parent` refers to, and returns its fresh
    /// handle. A stale parent handle means there is nothing to attach to:
    /// nothing is inserted, nothing changes, and `None` is returned.
    pub fn insert_collider(&mut self, parent: Handle, half_extents: Vec2) -> (r: Option<Handle>)
        requires
            old(self).wf(),
            0 <= half_extents.x <= EXTENT_LIMIT,
            0 <= half_extents.y <= EXTENT_LIMIT,
        ensures
            final(self).wf(),
            r is Some <==> old(self).bodies.live(parent),
            r is None ==> *final(self) == *old(self),
            r is Some ==> final(self).colliders.live(r->0) && final(self).colliders.payload_of(
                r->0,
            ) == (Collider { parent, half_extents }) && !old(self).colliders.live(r->0),
            forall|h2: Handle|
                r is Some && h2 != r->0 ==> (final(self).colliders.live(h2) <==> old(self).colliders.live(h2)),
            forall|h2: Handle|
                old(self).colliders.live(h2) ==> final(self).colliders.payload_of(h2) == old(self).colliders.payload_of(h2),
            old(self).colliders.evolves_to(final(self).colliders),
            forall|i: int|
                0 <= i < old(self).colliders.slot_count() ==> final(self).colliders.gen_at(i)
                    == old(self).colliders.gen_at(i),
            r is Some ==> r->0.generation == final(self).colliders.gen_at(r->0.index as int),
            final(self).bodies == old(self).bodies,
            final(self).joints == old(self).joints,
            final(self).broad_phase == old(self).broad_phase,
            final(self).narrow_phase == old(self).narrow_phase,
    {
        if self.bodies.resolve(parent).is_some() {
            let h = self.colliders.allocate(Collider { parent, half_extents });
            proof {
                let cnew = self.colliders.slots@;
                let cold = old(self).colliders.slots@;
                assert forall|h2: Handle| seq_live(cold, h2) implies seq_live(cnew, h2) by {
                    assert(old(self).colliders.live(h2));
                    assert(h2 != h);
                    assert(self.colliders.live(h2));
                }
                assert forall|i: int|
                    0 <= i < cnew.len() && (#[trigger] cnew[i]).payload is Some implies seq_live(
                    self.bodies.slots@,
                    cnew[i].payload->0.parent,
                ) by {
                    if i != h.index as int {
                        assert(cnew[i] == cold[i]);
                    }
                }
                assert forall|k: int|
                    0 <= k < self.broad_phase.entries@.len() implies seq_live(
                    cnew,
                    (#[trigger] self.broad_phase.entries@[k]).collider,
                ) by {
                    assert(seq_live(cold, self.broad_phase.entries@[k].collider));
                }
                assert forall|k: int|
                    0 <= k < self.broad_phase.candidates@.len() implies seq_live(
                    cnew,
                    (#[trigger] self.broad_phase.candidates@[k]).first.collider,
                ) && seq_live(cnew, self.broad_phase.candidates@[k].second.collider) by {
                    assert(seq_live(cold, self.broad_phase.candidates@[k].first.collider));
                    assert(seq_live(cold, self.broad_phase.candidates@[k].second.collider));
                }
                assert forall|k: int|
                    0 <= k < self.narrow_phase.contacts@.len() implies seq_live(
                    cnew,
                    (#[trigger] self.narrow_phase.contacts@[k]).first,
                ) && seq_live(cnew, self.narrow_phase.contacts@[k].second) by {
                    assert(seq_live(cold, self.narrow_phase.contacts@[k].first));
                    assert(seq_live(cold, self.narrow_phase.contacts@[k].second));
                }
            }
            Some(h)
        } else {
            None
        }
    }

    /// Inserts a joint between the two bodies the handles refer to, and
    /// returns its fresh handle. If either handle is stale there is nothing
    /// to constrain: nothing is inserted, nothing changes, and `None` is
    /// returned.
    pub fn insert_joint(&mut self, body1: Handle, body2: Handle) -> (r: Option<Handle>)
        requires
            old(self).wf(),
        ensures
            final(self).wf(),
            r is Some <==> old(self).bodies.live(body1) && old(self).bodies.live(body2),
            r is None ==> *final(self) == *old(self),
            r is Some ==> final(self).joints.live(r->0) && final(self).joints.payload_of(r->0)
                == (Joint { body1, body2 }) && !old(self).joints.live(r->0),
            forall|h2: Handle|
                r is Some && h2 != r->0 ==> (final(self).joints.live(h2) <==> old(self).joints.live(h2)),
            forall|h2: Handle|
                old(self).joints.live(h2) ==> final(self).joints.payload_of(h2) == old(self).joints.payload_of(h2),
            old(self).joints.evolves_to(final(self).joints),
            forall|i: int|
                0 <= i < old(self).joints.slot_count() ==> final(self).joints.gen_at(i) == old(
                    self,
                ).joints.gen_at(i),
            r is Some ==> r->0.generation == final(self).joints.gen_at(r->0.index as int),
            final(self).bodies == old(self).bodies,
            final(self).colliders == old(self).colliders,
            final(self).broad_phase == old(self).broad_phase,
            final(self).narrow_phase == old(self).narrow_phase,
    {
        if self.bodies.resolve(body1).is_some() && self.bodies.resolve(body2).is_some() {
            let h = self.joints.allocate(Joint { body1, body2 });
            proof {
                let jnew = self.joints.slots@;
                let jold = old(self).joints.slots@;
                assert forall|i: int|
                    0 <= i < jnew.len() && (#[trigger] jnew[i]).payload is Some implies seq_live(
                    self.bodies.slots@,
                    jnew[i].payload->0.body1,
                ) && seq_live(self.bodies.slots@, jnew[i].payload->0.body2) by {
                    if i != h.index as int {
                        assert(jnew[i] == jold[i]);
                    }
                }
            }
            Some(h)
        } else {
            None
        }
    }

    /// Advances the world by one fixed time step, in the mandatory order:
    /// the broad phase rebuilds its entries and candidate pairs from the
    /// current collider state; the narrow phase rebuilds its manifolds from
    /// this step's candidate set; the integrator then applies gravity and
    /// advances every dynamic body by the parameters' time step (free motion
    /// only: joint and contact constraints are not solved here, that solver
    /// being a black box outside the model). No entity is created or
    /// destroyed, and the whole post-state is a function of the pre-state,
    /// the gravity and the parameters.
    pub fn step(&mut self, gravity: Vec2, params: &IntegrationParameters)
        requires
            old(self).wf(),
            vec2_in_range(gravity, GRAV_LIMIT as int),
            params.wf(),
        ensures
            final(self).wf(),
            final(self).broad_phase.entries@ == spec_entries(
                old(self).colliders.slots@,
                old(self).bodies.slots@,
            ),
            final(self).broad_phase.candidates@ == spec_candidates(
                final(self).broad_phase.entries@,
            ),
            final(self).narrow_phase.contacts@ == spec_contacts(
                final(self).broad_phase.candidates@,
            ),
            final(self).bodies.slots@ == integrate_slots_spec(
                old(self).bodies.slots@,
                gravity,
                params.inv_dt,
            ),
            final(self).colliders == old(self).colliders,
            final(self).joints == old(self).joints,
            old(self).bodies.evolves_to(final(self).bodies),
    {
        self.broad_phase.update(&self.bodies, &self.colliders);
        self.narrow_phase.refresh(&self.broad_phase, &self.colliders);
        integrate_all(&mut self.bodies, gravity, params);
        proof {
            let bnew = self.bodies.slots@;
            let bold = old(self).bodies.slots@;
            assert forall|h2: Handle| seq_live(bold, h2) implies seq_live(bnew, h2) by {
                assert(bnew[h2.index as int].generation == bold[h2.index as int].generation);
                assert(bnew[h2.index as int].payload is Some);
            }
            assert forall|i: int|
                0 <= i < bnew.len() && (#[trigger] bnew[i]).payload is Some implies bnew[i].generation
                < u64::MAX by {
                assert(bold[i].payload is Some);
                assert(bold[i].generation < u64::MAX);
            }
            assert forall|i: int|
                0 <= i < old(self).bodies.slot_count() implies old(self).bodies.gen_at(i)
                <= #[trigger] self.bodies.gen_at(i) by {
                assert(bnew[i].generation == bold[i].generation);
            }
            assert forall|i: int|
                0 <= i < self.colliders.slots@.len() && (#[trigger] self.colliders.slots@[i]).payload
                    is Some implies seq_live(bnew, self.colliders.slots@[i].payload->0.parent) by {
                assert(seq_live(bold, self.colliders.slots@[i].payload->0.parent));
            }
            assert forall|i: int|
                0 <= i < self.joints.slots@.len() && (#[trigger] self.joints.slots@[i]).payload
                    is Some implies seq_live(bnew, self.joints.slots@[i].payload->0.body1)
                && seq_live(bnew, self.joints.slots@[i].payload->0.body2) by {
                assert(seq_live(bold, self.joints.slots@[i].payload->0.body1));
                assert(seq_live(bold, self.joints.slots@[i].payload->0.body2));
            }
        }
    }

    /// Removes a collider in coordination with every dependent structure:
    /// its broad-phase entry and candidate pairs and its contact manifolds
    /// are purged before its slot is freed, so after the call returns no
    /// reachable structure refers to it. A stale handle means there is
    /// nothing to remove: the call is a no-op, not an error. Bodies and
    /// joints are never touched.
    pub fn remove_collider(&mut self, handle: Handle)
        requires
            old(self).wf(),
        ensures
            final(self).wf(),
            (
                final(self).colliders.slots@,
                final(self).broad_phase.entries@,
                final(self).broad_phase.candidates@,
                final(self).narrow_phase.contacts@,
            ) == remove_collider_spec(
                old(self).colliders.slots@,
                old(self).broad_phase.entries@,
                old(self).broad_phase.candidates@,
                old(self).narrow_phase.contacts@,
                handle,
            ),
            final(self).bodies == old(self).bodies,
            final(self).joints == old(self).joints,
            !final(self).colliders.live(handle),
            old(self).colliders.evolves_to(final(self).colliders),
    {
        if self.colliders.resolve(handle).is_some() {
            self.broad_phase.remove_entries_for(handle);
            self.narrow_phase.remove_contacts_for(handle);
            self.colliders.free(handle);
            proof {
                let cold = old(self).colliders.slots@;
                let cnew = self.colliders.slots@;
                let eold = old(self).broad_phase.entries@;
                let aold = old(self).broad_phase.candidates@;
                let told = old(self).narrow_phase.contacts@;
                lemma_filter_membership(eold, |e: BpEntry| e.collider != handle);
                lemma_filter_membership(
                    aold,
                    |p: CandidatePair| p.first.collider != handle && p.second.collider != handle,
                );
                lemma_filter_membership(told, |c: Contact| c.first != handle && c.second != handle);
                // a valid handle other than the removed one stays valid
                assert forall|h2: Handle| seq_live(cold, h2) && h2 != handle implies seq_live(
                    cnew,
                    h2,
                ) by {
                    if h2.index == handle.index {
                        assert(h2.generation == cold[h2.index as int].generation);
                        assert(handle.generation == cold[h2.index as int].generation);
                        assert(h2 == handle);
                    } else {
                        assert(cnew[h2.index as int] == cold[h2.index as int]);
                    }
                }
                assert forall|i: int|
                    0 <= i < old(self).colliders.slot_count() implies old(self).colliders.gen_at(
                    i,
                ) <= #[trigger] self.colliders.gen_at(i) by {
                    if i == handle.index as int {
                        assert(cold[i].payload is Some);
                        assert(cold[i].generation < u64::MAX);
                    } else {
                        assert(cnew[i] == cold[i]);
                    }
                }
                // payload bounds carry over slot by slot
                assert forall|i: int|
                    0 <= i < cnew.len() && (#[trigger] cnew[i]).payload is Some implies collider_wf(
                    cnew[i].payload->0,
                ) && seq_live(self.bodies.slots@, cnew[i].payload->0.parent) && cnew[i].generation
                    < u64::MAX by {
                    if i != handle.index as int {
                        assert(cnew[i] == cold[i]);
                    }
                }
                // every surviving entry was an entry before and avoids the handle
                assert forall|k: int|
                    0 <= k < self.broad_phase.entries@.len() implies seq_live(
                    cnew,
                    (#[trigger] self.broad_phase.entries@[k]).collider,
                ) && entry_in_range(self.broad_phase.entries@[k]) by {
                    let e = self.broad_phase.entries@[k];
                    assert(self.broad_phase.entries@.contains(e));
                    assert(eold.contains(e) && e.collider != handle);
                    let j = choose|j: int| 0 <= j < eold.len() && eold[j] == e;
                    assert(seq_live(cold, eold[j].collider));
                    assert(entry_in_range(eold[j]));
                }
                assert forall|k: int|
                    0 <= k < self.broad_phase.candidates@.len() implies seq_live(
                    cnew,
                    (#[trigger] self.broad_phase.candidates@[k]).first.collider,
                ) && seq_live(cnew, self.broad_phase.candidates@[k].second.collider)
                    && entry_in_range(self.broad_phase.candidates@[k].first) && entry_in_range(
                    self.broad_phase.candidates@[k].second,
                ) by {
                    let p = self.broad_phase.candidates@[k];
                    assert(self.broad_phase.candidates@.contains(p));
                    assert(aold.contains(p) && p.first.collider != handle && p.second.collider
                        != handle);
                    let j = choose|j: int| 0 <= j < aold.len() && aold[j] == p;
                    assert(seq_live(cold, aold[j].first.collider));
                    assert(seq_live(cold, aold[j].second.collider));
                    assert(entry_in_range(aold[j].first));
                    assert(entry_in_range(aold[j].second));
                }
                assert forall|k: int|
                    0 <= k < self.narrow_phase.contacts@.len() implies seq_live(
                    cnew,
                    (#[trigger] self.narrow_phase.contacts@[k]).first,
                ) && seq_live(cnew, self.narrow_phase.contacts@[k].second) by {
                    let c = self.narrow_phase.contacts@[k];
                    assert(self.narrow_phase.contacts@.contains(c));
                    assert(told.contains(c) && c.first != handle && c.second != handle);
                    let j = choose|j: int| 0 <= j < told.len() && told[j] == c;
                    assert(seq_live(cold, told[j].first));
                    assert(seq_live(cold, told[j].second));
                }
            }
        }
    }

    /// Removes a body and cascades: every collider it owns is removed by the
    /// same coordinated procedure as `remove_collider`, every joint
    /// referencing it is removed, and finally the body's slot is freed, so
    /// afterwards no collider is owned by the body, no joint references it,
    /// and no reachable structure refers to anything that was removed. A
    /// stale handle is a no-op. Everything unrelated to the removed body is
    /// kept unchanged.
    pub fn remove_body(&mut self, handle: Handle)
        requires
            old(self).wf(),
        ensures
            final(self).wf(),
            !final(self).bodies.live(handle),
            !old(self).bodies.live(handle) ==> *final(self) == *old(self),
            forall|i: int|
                0 <= i < final(self).colliders.slots@.len() ==> ((#[trigger] final(self).colliders.slots@[i]).payload is Some ==> final(self).colliders.slots@[i].payload->0.parent != handle),
            forall|i: int|
                0 <= i < final(self).joints.slots@.len() ==> ((#[trigger] final(self).joints.slots@[i]).payload is Some ==> final(self).joints.slots@[i].payload->0.body1
                    != handle && final(self).joints.slots@[i].payload->0.body2 != handle),
            forall|h2: Handle|
                h2 != handle ==> (final(self).bodies.live(h2) <==> old(self).bodies.live(h2)),
            forall|h2: Handle|
                h2 != handle && old(self).bodies.live(h2) ==> final(self).bodies.payload_of(h2)
                    == old(self).bodies.payload_of(h2),
            forall|hc: Handle|
                final(self).colliders.live(hc) <==> (old(self).colliders.live(hc) && old(self).colliders.payload_of(hc).parent != handle),
            forall|hc: Handle|
                final(self).colliders.live(hc) ==> final(self).colliders.payload_of(hc) == old(self).colliders.payload_of(hc),
            forall|hj: Handle|
                final(self).joints.live(hj) <==> (old(self).joints.live(hj) && old(self).joints.payload_of(hj).body1 != handle && old(self).joints.payload_of(hj).body2
                    != handle),
            forall|hj: Handle|
                final(self).joints.live(hj) ==> final(self).joints.payload_of(hj) == old(self).joints.payload_of(hj),
            forall|e: BpEntry|
                #[trigger] final(self).broad_phase.entries@.contains(e) <==> (old(self).broad_phase.entries@.contains(e) && final(self).colliders.live(e.collider)),
            forall|p: CandidatePair|
                #[trigger] final(self).broad_phase.candidates@.contains(p) <==> (old(self).broad_phase.candidates@.contains(p) && final(self).colliders.live(
                    p.first.collider,
                ) && final(self).colliders.live(p.second.collider)),
            forall|c: Contact|
                #[trigger] final(self).narrow_phase.contacts@.contains(c) <==> (old(self).narrow_phase.contacts@.contains(c) && final(self).colliders.live(c.first)
                    && final(self).colliders.live(c.second)),
            old(self).bodies.evolves_to(final(self).bodies),
            old(self).colliders.evolves_to(final(self).colliders),
            old(self).joints.evolves_to(final(self).joints),
            final(self).bodies.slots@ == seq_free(old(self).bodies.slots@, handle),
            forall|j: int|
                0 <= j < old(self).colliders.slots@.len() ==> final(self).colliders.slots@[j]
                    == (if (#[trigger] old(self).colliders.slots@[j]).payload is Some && old(
                    self,
                ).colliders.slots@[j].payload->0.parent == handle {
                    Slot {
                        generation: (old(self).colliders.slots@[j].generation + 1) as u64,
                        payload: None::<Collider>,
                    }
                } else {
                    old(self).colliders.slots@[j]
                }),
            forall|j: int|
                0 <= j < old(self).joints.slots@.len() ==> final(self).joints.slots@[j] == (if (
                #[trigger] old(self).joints.slots@[j]).payload is Some && (old(
                    self,
                ).joints.slots@[j].payload->0.body1 == handle || old(
                    self,
                ).joints.slots@[j].payload->0.body2 == handle) {
                    Slot {
                        generation: (old(self).joints.slots@[j].generation + 1) as u64,
                        payload: None::<Joint>,
                    }
                } else {
                    old(self).joints.slots@[j]
                }),
            final(self).broad_phase.entries@ == old(self).broad_phase.entries@.filter(
                |e: BpEntry| !collider_owned_by(old(self).colliders.slots@, handle, e.collider),
            ),
            final(self).broad_phase.candidates@ == old(self).broad_phase.candidates@.filter(
                |p: CandidatePair| !collider_owned_by(
                    old(self).colliders.slots@,
                    handle,
                    p.first.collider,
                ) && !collider_owned_by(old(self).colliders.slots@, handle, p.second.collider),
            ),
            final(self).narrow_phase.contacts@ == old(self).narrow_phase.contacts@.filter(
                |c: Contact| !collider_owned_by(old(self).colliders.slots@, handle, c.first)
                    && !collider_owned_by(old(self).colliders.slots@, handle, c.second),
            ),
    {
        if self.bodies.resolve(handle).is_none() {
            proof {
                assert forall|i: int|
                    0 <= i < self.colliders.slots@.len() && (#[trigger] self.colliders.slots@[i]).payload
                        is Some implies self.colliders.slots@[i].payload->0.parent != handle by {
                    assert(seq_live(self.bodies.slots@, self.colliders.slots@[i].payload->0.parent));
                }
                assert forall|i: int|
                    0 <= i < self.joints.slots@.len() && (#[trigger] self.joints.slots@[i]).payload
                        is Some implies self.joints.slots@[i].payload->0.body1 != handle
                    && self.joints.slots@[i].payload->0.body2 != handle by {
                    assert(seq_live(self.bodies.slots@, self.joints.slots@[i].payload->0.body1));
                    assert(seq_live(self.bodies.slots@, self.joints.slots@[i].payload->0.body2));
                }
                assert forall|hc: Handle| self.colliders.live(hc) implies self.colliders.payload_of(
                    hc,
                ).parent != handle by {
                    let i = hc.index as int;
                    assert(self.colliders.slots@[i].payload is Some);
                    assert(seq_live(self.bodies.slots@, self.colliders.slots@[i].payload->0.parent));
                }
                assert forall|hj: Handle| self.joints.live(hj) implies self.joints.payload_of(
                    hj,
                ).body1 != handle && self.joints.payload_of(hj).body2 != handle by {
                    let i = hj.index as int;
                    assert(self.joints.slots@[i].payload is Some);
                    assert(seq_live(self.bodies.slots@, self.joints.slots@[i].payload->0.body1));
                    assert(seq_live(self.bodies.slots@, self.joints.slots@[i].payload->0.body2));
                }
                assert forall|e: BpEntry|
                    #[trigger] self.broad_phase.entries@.contains(e) implies seq_live(
                    self.colliders.slots@,
                    e.collider,
                ) by {
                    let j = choose|j: int|
                        0 <= j < self.broad_phase.entries@.len() && self.broad_phase.entries@[j]
                            == e;
                    assert(seq_live(self.colliders.slots@, self.broad_phase.entries@[j].collider));
                }
                assert forall|p: CandidatePair|
                    #[trigger] self.broad_phase.candidates@.contains(p) implies seq_live(
                    self.colliders.slots@,
                    p.first.collider,
                ) && seq_live(self.colliders.slots@, p.second.collider) by {
                    let j = choose|j: int|
                        0 <= j < self.broad_phase.candidates@.len()
                            && self.broad_phase.candidates@[j] == p;
                    assert(seq_live(
                        self.colliders.slots@,
                        self.broad_phase.candidates@[j].first.collider,
                    ));
                    assert(seq_live(
                        self.colliders.slots@,
                        self.broad_phase.candidates@[j].second.collider,
                    ));
                }
                assert forall|c: Contact|
                    #[trigger] self.narrow_phase.contacts@.contains(c) implies seq_live(
                    self.colliders.slots@,
                    c.first,
                ) && seq_live(self.colliders.slots@, c.second) by {
                    let j = choose|j: int|
                        0 <= j < self.narrow_phase.contacts@.len() && self.narrow_phase.contacts@[j]
                            == c;
                    assert(seq_live(self.colliders.slots@, self.narrow_phase.contacts@[j].first));
                    assert(seq_live(self.colliders.slots@, self.narrow_phase.contacts@[j].second));
                }
                assert forall|x: Handle|
                    !(#[trigger] collider_owned_by(
                        old(self).colliders.slots@,
                        handle,
                        x,
                    )) by {
                    if seq_live(old(self).colliders.slots@, x) {
                        assert(old(self).colliders.slots@[x.index as int].payload is Some);
                        assert(seq_live(
                            old(self).bodies.slots@,
                            old(self).colliders.slots@[x.index as int].payload->0.parent,
                        ));
                    }
                }
                lemma_filter_all(
                    old(self).broad_phase.entries@,
                    |e: BpEntry| !collider_owned_by(old(self).colliders.slots@, handle, e.collider),
                );
                lemma_filter_all(
                    old(self).broad_phase.candidates@,
                    |p: CandidatePair| !collider_owned_by(
                        old(self).colliders.slots@,
                        handle,
                        p.first.collider,
                    ) && !collider_owned_by(old(self).colliders.slots@, handle, p.second.collider),
                );
                lemma_filter_all(
                    old(self).narrow_phase.contacts@,
                    |c: Contact| !collider_owned_by(old(self).colliders.slots@, handle, c.first)
                        && !collider_owned_by(old(self).colliders.slots@, handle, c.second),
                );
            }
            return ;
        }
        let n = self.colliders.slots.len();
        let mut i: usize = 0;
        proof {
            assert forall|e: BpEntry|
                #[trigger] self.broad_phase.entries@.contains(e) implies seq_live(
                self.colliders.slots@,
                e.collider,
            ) by {
                let j = choose|j: int|
                    0 <= j < self.broad_phase.entries@.len() && self.broad_phase.entries@[j] == e;
                assert(seq_live(self.colliders.slots@, self.broad_phase.entries@[j].collider));
            }
            assert forall|p: CandidatePair|
                #[trigger] self.broad_phase.candidates@.contains(p) implies seq_live(
                self.colliders.slots@,
                p.first.collider,
            ) && seq_live(self.colliders.slots@, p.second.collider) by {
                let j = choose|j: int|
                    0 <= j < self.broad_phase.candidates@.len() && self.broad_phase.candidates@[j]
                        == p;
                assert(seq_live(
                    self.colliders.slots@,
                    self.broad_phase.candidates@[j].first.collider,
                ));
                assert(seq_live(
                    self.colliders.slots@,
                    self.broad_phase.candidates@[j].second.collider,
                ));
            }
            assert forall|c: Contact|
                #[trigger] self.narrow_phase.contacts@.contains(c) implies seq_live(
                self.colliders.slots@,
                c.first,
            ) && seq_live(self.colliders.slots@, c.second) by {
                let j = choose|j: int|
                    0 <= j < self.narrow_phase.contacts@.len() && self.narrow_phase.contacts@[j]
                        == c;
                assert(seq_live(self.colliders.slots@, self.narrow_phase.contacts@[j].first));
                assert(seq_live(self.colliders.slots@, self.narrow_phase.contacts@[j].second));
            }
            lemma_filter_all(
                old(self).broad_phase.entries@,
                |e: BpEntry| !collider_owned_below(
                    old(self).colliders.slots@,
                    handle,
                    i as int,
                    e.collider,
                ),
            );
            lemma_filter_all(
                old(self).broad_phase.candidates@,
                |p: CandidatePair| !collider_owned_below(
                    old(self).colliders.slots@,
                    handle,
                    i as int,
                    p.first.collider,
                ) && !collider_owned_below(
                    old(self).colliders.slots@,
                    handle,
                    i as int,
                    p.second.collider,
                ),
            );
            lemma_filter_all(
                old(self).narrow_phase.contacts@,
                |c: Contact| !collider_owned_below(
                    old(self).colliders.slots@,
                    handle,
                    i as int,
                    c.first,
                ) && !collider_owned_below(
                    old(self).colliders.slots@,
                    handle,
                    i as int,
                    c.second,
                ),
            );
        }
        while i < n
            invariant
                old(self).wf(),
                self.wf(),
                old(self).bodies.live(handle),
                self.bodies == old(self).bodies,
                self.joints == old(self).joints,
                n == old(self).colliders.slots@.len(),
                n == self.colliders.slots@.len(),
                0 <= i <= n,
                forall|j: int|
                    0 <= j < n ==> self.colliders.slots@[j] == (if j < i && (#[trigger] old(self).colliders.slots@[j]).payload is Some && old(self).colliders.slots@[j].payload->0.parent == handle {
                        Slot {
                            generation: (old(self).colliders.slots@[j].generation + 1) as u64,
                            payload: None::<Collider>,
                        }
                    } else {
                        old(self).colliders.slots@[j]
                    }),
                forall|e: BpEntry|
                    #[trigger] self.broad_phase.entries@.contains(e) <==> (old(self).broad_phase.entries@.contains(e) && seq_live(
                        self.colliders.slots@,
                        e.collider,
                    )),
                forall|p: CandidatePair|
                    #[trigger] self.broad_phase.candidates@.contains(p) <==> (old(self).broad_phase.candidates@.contains(p) && seq_live(
                        self.colliders.slots@,
                        p.first.collider,
                    ) && seq_live(self.colliders.slots@, p.second.collider)),
                forall|c: Contact|
                    #[trigger] self.narrow_phase.contacts@.contains(c) <==> (old(self).narrow_phase.contacts@.contains(c) && seq_live(
                        self.colliders.slots@,
                        c.first,
                    ) && seq_live(self.colliders.slots@, c.second)),
                self.broad_phase.entries@ == old(self).broad_phase.entries@.filter(
                    |e: BpEntry| !collider_owned_below(
                        old(self).colliders.slots@,
                        handle,
                        i as int,
                        e.collider,
                    ),
                ),
                self.broad_phase.candidates@ == old(self).broad_phase.candidates@.filter(
                    |p: CandidatePair| !collider_owned_below(
                        old(self).colliders.slots@,
                        handle,
                        i as int,
                        p.first.collider,
                    ) && !collider_owned_below(
                        old(self).colliders.slots@,
                        handle,
                        i as int,
                        p.second.collider,
                    ),
                ),
                self.narrow_phase.contacts@ == old(self).narrow_phase.contacts@.filter(
                    |c: Contact| !collider_owned_below(
                        old(self).colliders.slots@,
                        handle,
                        i as int,
                        c.first,
                    ) && !collider_owned_below(
                        old(self).colliders.slots@,
                        handle,
                        i as int,
                        c.second,
                    ),
                ),
            decreases n - i,
        {
            let slot_gen = self.colliders.slots[i].generation;
            let mut remove_this = false;
            match &self.colliders.slots[i].payload {
                Some(c) => {
                    if c.parent == handle {
                        remove_this = true;
                    }
                },
                None => {},
            }
            if remove_this {
                let ch = Handle { index: i, generation: slot_gen };
                let ghost cur = self.colliders.slots@;
                let ghost ecur = self.broad_phase.entries@;
                let ghost acur = self.broad_phase.candidates@;
                let ghost tcur = self.narrow_phase.contacts@;
                proof {
                    assert(seq_live(cur, ch));
                }
                self.remove_collider(ch);
                proof {
                    lemma_filter_membership(ecur, |e: BpEntry| e.collider != ch);
                    lemma_filter_membership(
                        acur,
                        |p: CandidatePair| p.first.collider != ch && p.second.collider != ch,
                    );
                    lemma_filter_membership(tcur, |c: Contact| c.first != ch && c.second != ch);
                    let cnow = self.colliders.slots@;
                    assert(cnow == seq_free(cur, ch));
                    assert forall|h2: Handle| seq_live(cur, h2) && h2 != ch implies seq_live(
                        cnow,
                        h2,
                    ) by {
                        if h2.index == ch.index {
                            assert(h2.generation == cur[h2.index as int].generation);
                            assert(ch.generation == cur[ch.index as int].generation);
                            assert(h2 == ch);
                        } else {
                            assert(cnow[h2.index as int] == cur[h2.index as int]);
                        }
                    }
                    assert forall|h2: Handle| seq_live(cnow, h2) implies seq_live(cur, h2) && h2
                        != ch by {
                        assert(cnow[ch.index as int].payload is None);
                        assert(h2.index != ch.index);
                        assert(cnow[h2.index as int] == cur[h2.index as int]);
                    }
                    assert forall|e: BpEntry| #[trigger] self.broad_phase.entries@.contains(
                        e,
                    ) implies (old(self).broad_phase.entries@.contains(e) && seq_live(
                        cnow,
                        e.collider,
                    )) by {
                        assert(ecur.contains(e) && e.collider != ch);
                        assert(seq_live(cur, e.collider));
                    }
                    assert forall|e: BpEntry|
                        old(self).broad_phase.entries@.contains(e) && seq_live(
                            cnow,
                            e.collider,
                        ) implies #[trigger] self.broad_phase.entries@.contains(e) by {
                        assert(seq_live(cur, e.collider) && e.collider != ch);
                        assert(ecur.contains(e));
                    }
                    assert forall|p: CandidatePair| #[trigger] self.broad_phase.candidates@.contains(
                        p,
                    ) implies (old(self).broad_phase.candidates@.contains(p) && seq_live(
                        cnow,
                        p.first.collider,
                    ) && seq_live(cnow, p.second.collider)) by {
                        assert(acur.contains(p) && p.first.collider != ch && p.second.collider
                            != ch);
                        assert(seq_live(cur, p.first.collider));
                        assert(seq_live(cur, p.second.collider));
                    }
                    assert forall|p: CandidatePair|
                        old(self).broad_phase.candidates@.contains(p) && seq_live(
                            cnow,
                            p.first.collider,
                        ) && seq_live(
                            cnow,
                            p.second.collider,
                        ) implies #[trigger] self.broad_phase.candidates@.contains(p) by {
                        assert(seq_live(cur, p.first.collider) && p.first.collider != ch);
                        assert(seq_live(cur, p.second.collider) && p.second.collider != ch);
                        assert(acur.contains(p));
                    }
                    assert forall|c: Contact| #[trigger] self.narrow_phase.contacts@.contains(
                        c,
                    ) implies (old(self).narrow_phase.contacts@.contains(c) && seq_live(
                        cnow,
                        c.first,
                    ) && seq_live(cnow, c.second)) by {
                        assert(tcur.contains(c) && c.first != ch && c.second != ch);
                        assert(seq_live(cur, c.first));
                        assert(seq_live(cur, c.second));
                    }
                    assert forall|c: Contact|
                        old(self).narrow_phase.contacts@.contains(c) && seq_live(cnow, c.first)
                            && seq_live(
                            cnow,
                            c.second,
                        ) implies #[trigger] self.narrow_phase.contacts@.contains(c) by {
                        assert(seq_live(cur, c.first) && c.first != ch);
                        assert(seq_live(cur, c.second) && c.second != ch);
                        assert(tcur.contains(c));
                    }
                    // the slot just freed is exactly the one new exclusion of
                    // the scan predicate
                    assert forall|x: Handle|
                        #[trigger] collider_owned_below(
                            old(self).colliders.slots@,
                            handle,
                            i as int + 1,
                            x,
                        ) == (collider_owned_below(
                        old(self).colliders.slots@,
                        handle,
                        i as int,
                        x,
                    ) || x == ch) by {
                        assert(cur[i as int] == old(self).colliders.slots@[i as int]);
                        if x == ch {
                            assert(seq_live(cur, ch));
                            assert(seq_live(old(self).colliders.slots@, ch));
                            assert(seq_payload(old(self).colliders.slots@, ch).parent == handle);
                        } else if seq_live(old(self).colliders.slots@, x) && x.index as int == i as int {
                            assert(x.generation == old(self).colliders.slots@[i as int].generation);
                            assert(ch.generation == old(self).colliders.slots@[i as int].generation);
                            assert(x == ch);
                        }
                    }
                    lemma_filter_chain(
                        old(self).broad_phase.entries@,
                        |e: BpEntry| !collider_owned_below(
                            old(self).colliders.slots@,
                            handle,
                            i as int,
                            e.collider,
                        ),
                        |e: BpEntry| e.collider != ch,
                        |e: BpEntry| !collider_owned_below(
                            old(self).colliders.slots@,
                            handle,
                            i as int + 1,
                            e.collider,
                        ),
                    );
                    lemma_filter_chain(
                        old(self).broad_phase.candidates@,
                        |p: CandidatePair| !collider_owned_below(
                            old(self).colliders.slots@,
                            handle,
                            i as int,
                            p.first.collider,
                        ) && !collider_owned_below(
                            old(self).colliders.slots@,
                            handle,
                            i as int,
                            p.second.collider,
                        ),
                        |p: CandidatePair| p.first.collider != ch && p.second.collider != ch,
                        |p: CandidatePair| !collider_owned_below(
                            old(self).colliders.slots@,
                            handle,
                            i as int + 1,
                            p.first.collider,
                        ) && !collider_owned_below(
                            old(self).colliders.slots@,
                            handle,
                            i as int + 1,
                            p.second.collider,
                        ),
                    );
                    lemma_filter_chain(
                        old(self).narrow_phase.contacts@,
                        |c: Contact| !collider_owned_below(
                            old(self).colliders.slots@,
                            handle,
                            i as int,
                            c.first,
                        ) && !collider_owned_below(
                            old(self).colliders.slots@,
                            handle,
                            i as int,
                            c.second,
                        ),
                        |c: Contact| c.first != ch && c.second != ch,
                        |c: Contact| !collider_owned_below(
                            old(self).colliders.slots@,
                            handle,
                            i as int + 1,
                            c.first,
                        ) && !collider_owned_below(
                            old(self).colliders.slots@,
                            handle,
                            i as int + 1,
                            c.second,
                        ),
                    );
                }
            } else {
                proof {
                    assert forall|x: Handle|
                        #[trigger] collider_owned_below(
                            old(self).colliders.slots@,
                            handle,
                            i as int + 1,
                            x,
                        ) == collider_owned_below(
                        old(self).colliders.slots@,
                        handle,
                        i as int,
                        x,
                    ) by {
                        assert(self.colliders.slots@[i as int] == old(self).colliders.slots@[i as int]);
                        if seq_live(old(self).colliders.slots@, x) && x.index as int == i as int {
                            assert(x.generation == old(self).colliders.slots@[i as int].generation);
                        }
                    }
                    lemma_filter_agree(
                        old(self).broad_phase.entries@,
                        |e: BpEntry| !collider_owned_below(
                            old(self).colliders.slots@,
                            handle,
                            i as int,
                            e.collider,
                        ),
                        |e: BpEntry| !collider_owned_below(
                            old(self).colliders.slots@,
                            handle,
                            i as int + 1,
                            e.collider,
                        ),
                    );
                    lemma_filter_agree(
                        old(self).broad_phase.candidates@,
                        |p: CandidatePair| !collider_owned_below(
                            old(self).colliders.slots@,
                            handle,
                            i as int,
                            p.first.collider,
                        ) && !collider_owned_below(
                            old(self).colliders.slots@,
                            handle,
                            i as int,
                            p.second.collider,
                        ),
                        |p: CandidatePair| !collider_owned_below(
                            old(self).colliders.slots@,
                            handle,
                            i as int + 1,
                            p.first.collider,
                        ) && !collider_owned_below(
                            old(self).colliders.slots@,
                            handle,
                            i as int + 1,
                            p.second.collider,
                        ),
                    );
                    lemma_filter_agree(
                        old(self).narrow_phase.contacts@,
                        |c: Contact| !collider_owned_below(
                            old(self).colliders.slots@,
                            handle,
                            i as int,
                            c.first,
                        ) && !collider_owned_below(
                            old(self).colliders.slots@,
                            handle,
                            i as int,
                            c.second,
                        ),
                        |c: Contact| !collider_owned_below(
                            old(self).colliders.slots@,
                            handle,
                            i as int + 1,
                            c.first,
                        ) && !collider_owned_below(
                            old(self).colliders.slots@,
                            handle,
                            i as int + 1,
                            c.second,
                        ),
                    );
                }
            }
            i = i + 1;
        }
        proof {
            assert forall|x: Handle|
                #[trigger] collider_owned_below(
                    old(self).colliders.slots@,
                    handle,
                    i as int,
                    x,
                ) == collider_owned_by(old(self).colliders.slots@, handle, x) by {}
            lemma_filter_agree(
                old(self).broad_phase.entries@,
                |e: BpEntry| !collider_owned_below(
                    old(self).colliders.slots@,
                    handle,
                    i as int,
                    e.collider,
                ),
                |e: BpEntry| !collider_owned_by(old(self).colliders.slots@, handle, e.collider),
            );
            lemma_filter_agree(
                old(self).broad_phase.candidates@,
                |p: CandidatePair| !collider_owned_below(
                    old(self).colliders.slots@,
                    handle,
                    i as int,
                    p.first.collider,
                ) && !collider_owned_below(
                    old(self).colliders.slots@,
                    handle,
                    i as int,
                    p.second.collider,
                ),
                |p: CandidatePair| !collider_owned_by(
                    old(self).colliders.slots@,
                    handle,
                    p.first.collider,
                ) && !collider_owned_by(old(self).colliders.slots@, handle, p.second.collider),
            );
            lemma_filter_agree(
                old(self).narrow_phase.contacts@,
                |c: Contact| !collider_owned_below(
                    old(self).colliders.slots@,
                    handle,
                    i as int,
                    c.first,
                ) && !collider_owned_below(
                    old(self).colliders.slots@,
                    handle,
                    i as int,
                    c.second,
                ),
                |c: Contact| !collider_owned_by(old(self).colliders.slots@, handle, c.first)
                    && !collider_owned_by(old(self).colliders.slots@, handle, c.second),
            );
        }
        let ghost c1 = self.colliders.slots@;
        let ghost bp1 = self.broad_phase;
        let ghost np1 = self.narrow_phase;
        let m = self.joints.slots.len();
        let mut k: usize = 0;
        while k < m
            invariant
                old(self).wf(),
                self.wf(),
                old(self).bodies.live(handle),
                self.bodies == old(self).bodies,
                self.colliders.slots@ == c1,
                self.broad_phase == bp1,
                self.narrow_phase == np1,
                m == old(self).joints.slots@.len(),
                m == self.joints.slots@.len(),
                0 <= k <= m,
                forall|j: int|
                    0 <= j < m ==> self.joints.slots@[j] == (if j < k && (#[trigger] old(self).joints.slots@[j]).payload is Some && (old(self).joints.slots@[j].payload->0.body1 == handle || old(self).joints.slots@[j].payload->0.body2 == handle) {
                        Slot {
                            generation: (old(self).joints.slots@[j].generation + 1) as u64,
                            payload: None::<Joint>,
                        }
                    } else {
                        old(self).joints.slots@[j]
                    }),
            decreases m - k,
        {
            let slot_gen = self.joints.slots[k].generation;
            let mut remove_this = false;
            match &self.joints.slots[k].payload {
                Some(j) => {
                    if j.body1 == handle || j.body2 == handle {
                        remove_this = true;
                    }
                },
                None => {},
            }
            if remove_this {
                let jh = Handle { index: k, generation: slot_gen };
                proof {
                    assert(self.joints.live(jh));
                }
                let ghost jcur = self.joints.slots@;
                self.joints.free(jh);
                proof {
                    assert forall|jj: int|
                        0 <= jj < self.joints.slots@.len() && (#[trigger] self.joints.slots@[jj]).payload
                            is Some implies seq_live(
                        self.bodies.slots@,
                        self.joints.slots@[jj].payload->0.body1,
                    ) && seq_live(self.bodies.slots@, self.joints.slots@[jj].payload->0.body2) by {
                        assert(self.joints.slots@[jj] == jcur[jj]);
                    }
                }
            }
            k = k + 1;
        }
        let ghost j1 = self.joints.slots@;
        self.bodies.free(handle);
        proof {
            let bold = old(self).bodies.slots@;
            let bnew = self.bodies.slots@;
            assert forall|h2: Handle| seq_live(bold, h2) && h2 != handle implies seq_live(
                bnew,
                h2,
            ) by {
                if h2.index == handle.index {
                    assert(h2.generation == bold[h2.index as int].generation);
                    assert(handle.generation == bold[handle.index as int].generation);
                    assert(h2 == handle);
                } else {
                    assert(bnew[h2.index as int] == bold[h2.index as int]);
                }
            }
            // colliders that survived the cascade have parents other than the
            // removed body, and those parents stay valid
            assert forall|ii: int|
                0 <= ii < self.colliders.slots@.len() && (#[trigger] self.colliders.slots@[ii]).payload
                    is Some implies self.colliders.slots@[ii].payload->0.parent != handle
                && seq_live(bnew, self.colliders.slots@[ii].payload->0.parent) by {
                assert(self.colliders.slots@[ii] == old(self).colliders.slots@[ii]);
                assert(old(self).colliders.slots@[ii].payload is Some);
                assert(seq_live(bold, self.colliders.slots@[ii].payload->0.parent));
            }
            assert forall|jj: int|
                0 <= jj < self.joints.slots@.len() && (#[trigger] self.joints.slots@[jj]).payload
                    is Some implies self.joints.slots@[jj].payload->0.body1 != handle
                && self.joints.slots@[jj].payload->0.body2 != handle && seq_live(
                bnew,
                self.joints.slots@[jj].payload->0.body1,
            ) && seq_live(bnew, self.joints.slots@[jj].payload->0.body2) by {
                assert(self.joints.slots@[jj] == old(self).joints.slots@[jj]);
                assert(old(self).joints.slots@[jj].payload is Some);
                assert(seq_live(bold, self.joints.slots@[jj].payload->0.body1));
                assert(seq_live(bold, self.joints.slots@[jj].payload->0.body2));
            }
            // the collider set keeps exactly the colliders not owned by the
            // removed body
            assert forall|hc: Handle| self.colliders.live(hc) implies (old(self).colliders.live(hc)
                && old(self).colliders.payload_of(hc).parent != handle && self.colliders.payload_of(
                hc,
            ) == old(self).colliders.payload_of(hc)) by {
                let j = hc.index as int;
                assert(self.colliders.slots@[j].payload is Some);
                assert(self.colliders.slots@[j] == old(self).colliders.slots@[j]);
            }
            assert forall|hc: Handle|
                old(self).colliders.live(hc) && old(self).colliders.payload_of(hc).parent
                    != handle implies self.colliders.live(hc) by {
                let j = hc.index as int;
                assert(self.colliders.slots@[j] == old(self).colliders.slots@[j]);
            }
            assert forall|hj: Handle| self.joints.live(hj) implies (old(self).joints.live(hj)
                && old(self).joints.payload_of(hj).body1 != handle && old(self).joints.payload_of(hj).body2 != handle && self.joints.payload_of(hj) == old(self).joints.payload_of(hj)) by {
                let j = hj.index as int;
                assert(self.joints.slots@[j].payload is Some);
                assert(self.joints.slots@[j] == old(self).joints.slots@[j]);
            }
            assert forall|hj: Handle|
                old(self).joints.live(hj) && old(self).joints.payload_of(hj).body1 != handle && old(self).joints.payload_of(hj).body2 != handle implies self.joints.live(hj) by {
                let j = hj.index as int;
                assert(self.joints.slots@[j] == old(self).joints.slots@[j]);
            }
            // generations only ever grow
            assert forall|j: int|
                0 <= j < old(self).bodies.slot_count() implies old(self).bodies.gen_at(j)
                <= #[trigger] self.bodies.gen_at(j) by {
                if j == handle.index as int {
                    assert(bold[j].payload is Some);
                    assert(bold[j].generation < u64::MAX);
                } else {
                    assert(bnew[j] == bold[j]);
                }
            }
            assert forall|j: int|
                0 <= j < old(self).colliders.slot_count() implies old(self).colliders.gen_at(j)
                <= #[trigger] self.colliders.gen_at(j) by {
                if self.colliders.slots@[j] != old(self).colliders.slots@[j] {
                    assert(old(self).colliders.slots@[j].payload is Some);
                    assert(old(self).colliders.slots@[j].generation < u64::MAX);
                }
            }
            assert forall|j: int|
                0 <= j < old(self).joints.slot_count() implies old(self).joints.gen_at(j)
                <= #[trigger] self.joints.gen_at(j) by {
                if self.joints.slots@[j] != old(self).joints.slots@[j] {
                    assert(old(self).joints.slots@[j].payload is Some);
                    assert(old(self).joints.slots@[j].generation < u64::MAX);
                }
            }
        }
    }

    /// Resolves a body handle: returns the body only while the handle is
    /// valid; a stale handle reports not-found.
    pub fn body(&self, h: Handle) -> (r: Option<&RigidBody>)
        ensures
            r is Some <==> self.bodies.live(h),
            r is Some ==> *r->0 == self.bodies.payload_of(h),
    {
        self.bodies.resolve(h)
    }

    /// Resolves a collider handle, as `body` does for bodies.
    pub fn collider(&self, h: Handle) -> (r: Option<&Collider>)
        ensures
            r is Some <==> self.colliders.live(h),
            r is Some ==> *r->0 == self.colliders.payload_of(h),
    {
        self.colliders.resolve(h)
    }

    /// Resolves a joint handle, as `body` does for bodies.
    pub fn joint(&self, h: Handle) -> (r: Option<&Joint>)
        ensures
            r is Some <==> self.joints.live(h),
            r is Some ==> *r->0 == self.joints.payload_of(h),
    {
        self.joints.resolve(h)
    }

    /// Number of broad-phase entries.
    pub fn entry_count(&self) -> (n: usize)
        ensures
            n == self.broad_phase.entries@.len(),
    {
        self.broad_phase.entries.len()
    }

    /// Number of broad-phase candidate pairs.
    pub fn candidate_count(&self) -> (n: usize)
        ensures
            n == self.broad_phase.candidates@.len(),
    {
        self.broad_phase.candidates.len()
    }

    /// Number of contact manifolds.
    pub fn contact_count(&self) -> (n: usize)
        ensures
            n == self.narrow_phase.contacts@.len(),
    {
        self.narrow_phase.contacts.len()
    }

    /// The broad-phase entry at an index below `entry_count()`.
    pub fn entry_at(&self, k: usize) -> (e: BpEntry)
        requires
            k < self.broad_phase.entries@.len(),
        ensures
            e == self.broad_phase.entries@[k as int],
    {
        self.broad_phase.entries[k]
    }

    /// The candidate pair at an index below `candidate_count()`.
    pub fn candidate_at(&self, k: usize) -> (p: CandidatePair)
        requires
            k < self.broad_phase.candidates@.len(),
        ensures
            p == self.broad_phase.candidates@[k as int],
    {
        self.broad_phase.candidates[k]
    }

    /// The contact manifold at an index below `contact_count()`.
    pub fn contact_at(&self, k: usize) -> (c: Contact)
        requires
            k < self.narrow_phase.contacts@.len(),
        ensures
            c == self.narrow_phase.contacts@[k as int],
    {
        self.narrow_phase.contacts[k]
    }
}

/// No dangling references: in a well-formed world every broad-phase entry,
/// candidate side and contact side resolves to a valid collider, and every
/// collider's parent and joint's bodies resolve to a valid body. Every
/// operation of the pipeline re-establishes well-formedness, so this holds
/// after any sequence of insertions, steps and removals.
pub proof fn lemma_no_dangling(p: PhysicsPipeline)
    requires
        p.wf(),
    ensures
        forall|k: int|
            0 <= k < p.broad_phase.entries@.len() ==> seq_live(
                p.colliders.slots@,
                (#[trigger] p.broad_phase.entries@[k]).collider,
            ),
        forall|k: int|
            0 <= k < p.broad_phase.candidates@.len() ==> seq_live(
                p.colliders.slots@,
                (#[trigger] p.broad_phase.candidates@[k]).first.collider,
            ) && seq_live(p.colliders.slots@, p.broad_phase.candidates@[k].second.collider),
        forall|k: int|
            0 <= k < p.narrow_phase.contacts@.len() ==> seq_live(
                p.colliders.slots@,
                (#[trigger] p.narrow_phase.contacts@[k]).first,
            ) && seq_live(p.colliders.slots@, p.narrow_phase.contacts@[k].second),
        forall|i: int|
            0 <= i < p.colliders.slots@.len() ==> ((#[trigger] p.colliders.slots@[i]).payload
                is Some ==> seq_live(p.bodies.slots@, p.colliders.slots@[i].payload->0.parent)),
{
}

/// Step determinism: the post-state of `step` is pinned by its contract as a
/// function of the pre-state, the gravity and the parameters alone, so two
/// runs from equal snapshots with equal inputs produce equal entries, equal
/// candidates, equal contacts and equal bodies.
pub proof fn lemma_step_deterministic(
    bodies_a: Seq<Slot<RigidBody>>,
    colliders_a: Seq<Slot<Collider>>,
    bodies_b: Seq<Slot<RigidBody>>,
    colliders_b: Seq<Slot<Collider>>,
    gravity: Vec2,
    inv_dt: u32,
)
    requires
        bodies_a == bodies_b,
        colliders_a == colliders_b,
    ensures
        spec_entries(colliders_a, bodies_a) == spec_entries(colliders_b, bodies_b),
        spec_candidates(spec_entries(colliders_a, bodies_a)) == spec_candidates(
            spec_entries(colliders_b, bodies_b),
        ),
        spec_contacts(spec_candidates(spec_entries(colliders_a, bodies_a))) == spec_contacts(
            spec_candidates(spec_entries(colliders_b, bodies_b)),
        ),
        integrate_slots_spec(bodies_a, gravity, inv_dt) == integrate_slots_spec(
            bodies_b,
            gravity,
            inv_dt,
        ),
{
}

} // verus!
