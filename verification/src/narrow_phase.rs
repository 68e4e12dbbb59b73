use vstd::prelude::*;

use crate::arena::{seq_live, Arena, Slot};
use crate::broad_phase::{entry_in_range, BpEntry, BroadPhase, CandidatePair};
use crate::entities::Collider;
use crate::handle::Handle;

verus! {

/// A contact manifold: the two colliders of a candidate pair and the extent
/// of their boxes' overlap on each axis. For a candidate pair both extents
/// are non-negative; zero means the boxes touch on that axis without
/// penetrating, and `contact_penetrating` tells the two cases apart. Valid
/// only while both colliders exist.
#[derive(Clone, Copy, PartialEq, Eq, Structural, Debug)]
pub struct Contact {
    pub first: Handle,
    pub second: Handle,
    pub pen_x: i64,
    pub pen_y: i64,
}

/// Whether a manifold records actual penetration, as opposed to mere
/// touching.
pub open spec fn contact_penetrating(c: Contact) -> bool {
    c.pen_x > 0 && c.pen_y > 0
}

/// The manifold kept for a candidate pair.
pub open spec fn contact_for(p: CandidatePair) -> Contact {
    Contact {
        first: p.first.collider,
        second: p.second.collider,
        pen_x: (vstd::math::min(p.first.max_x as int, p.second.max_x as int) - vstd::math::max(
            p.first.min_x as int,
            p.second.min_x as int,
        )) as i64,
        pen_y: (vstd::math::min(p.first.max_y as int, p.second.max_y as int) - vstd::math::max(
            p.first.min_y as int,
            p.second.min_y as int,
        )) as i64,
    }
}

/// What the narrow phase derives from the candidate set: one manifold per
/// candidate pair, in candidate order.
pub open spec fn spec_contacts(cands: Seq<CandidatePair>) -> Seq<Contact> {
    Seq::new(cands.len(), |i: int| contact_for(cands[i]))
}

/// The narrow phase: the current contact manifolds. Derived state, rebuilt
/// from the broad phase's candidate set each step and purged synchronously
/// when a collider is removed.
pub struct NarrowPhase {
    pub contacts: Vec<Contact>,
}

impl NarrowPhase {
    pub fn new() -> (np: NarrowPhase)
        ensures
            np.contacts@ == Seq::<Contact>::empty(),
    {
        NarrowPhase { contacts: Vec::new() }
    }

    /// Consumes the broad phase's candidate set: creates or refreshes one
    /// manifold for each candidate pair of this step, in candidate order
    /// (a touching pair gets a zero-depth manifold), and drops every
    /// manifold whose pair is no longer a candidate. Every contact side
    /// refers to a valid collider.
    pub fn refresh(&mut self, broad_phase: &BroadPhase, colliders: &Arena<Collider>)
        requires
            forall|k: int|
                0 <= k < broad_phase.candidates@.len() ==> seq_live(
                    colliders.slots@,
                    (#[trigger] broad_phase.candidates@[k]).first.collider,
                ) && seq_live(colliders.slots@, broad_phase.candidates@[k].second.collider),
            forall|k: int|
                0 <= k < broad_phase.candidates@.len() ==> entry_in_range(
                    (#[trigger] broad_phase.candidates@[k]).first,
                ) && entry_in_range(broad_phase.candidates@[k].second),
        ensures
            final(self).contacts@ == spec_contacts(broad_phase.candidates@),
            forall|k: int|
                0 <= k < final(self).contacts@.len() ==> seq_live(
                    colliders.slots@,
                    (#[trigger] final(self).contacts@[k]).first,
                ) && seq_live(colliders.slots@, final(self).contacts@[k].second),
    {
        let cands = &broad_phase.candidates;
        let n = cands.len();
        let mut contacts: Vec<Contact> = Vec::new();
        let mut i: usize = 0;
        while i < n
            invariant
                n == broad_phase.candidates@.len(),
                cands == &broad_phase.candidates,
                0 <= i <= n,
                contacts@.len() == i as int,
                forall|k: int|
                    0 <= k < i as int ==> contacts@[k] == contact_for(
                        broad_phase.candidates@[k],
                    ),
                forall|k: int|
                    0 <= k < broad_phase.candidates@.len() ==> seq_live(
                        colliders.slots@,
                        (#[trigger] broad_phase.candidates@[k]).first.collider,
                    ) && seq_live(colliders.slots@, broad_phase.candidates@[k].second.collider),
                forall|k: int|
                    0 <= k < broad_phase.candidates@.len() ==> entry_in_range(
                        (#[trigger] broad_phase.candidates@[k]).first,
                    ) && entry_in_range(broad_phase.candidates@[k].second),
                forall|k: int|
                    0 <= k < contacts@.len() ==> seq_live(
                        colliders.slots@,
                        (#[trigger] contacts@[k]).first,
                    ) && seq_live(colliders.slots@, contacts@[k].second),
            decreases n - i,
        {
            let p = cands[i];
            let a = p.first;
            let b = p.second;
            let right = if a.max_x < b.max_x {
                a.max_x
            } else {
                b.max_x
            };
            let left = if a.min_x > b.min_x {
                a.min_x
            } else {
                b.min_x
            };
            let top = if a.max_y < b.max_y {
                a.max_y
            } else {
                b.max_y
            };
            let bottom = if a.min_y > b.min_y {
                a.min_y
            } else {
                b.min_y
            };
            contacts.push(
                Contact {
                    first: a.collider,
                    second: b.collider,
                    pen_x: right - left,
                    pen_y: top - bottom,
                },
            );
            i = i + 1;
        }
        proof {
            assert(contacts@ =~= spec_contacts(broad_phase.candidates@));
        }
        self.contacts = contacts;
    }

    /// Purges a collider from the narrow phase: drops every contact manifold
    /// involving it, and keeps everything else, in order.
    pub fn remove_contacts_for(&mut self, h: Handle)
        ensures
            final(self).contacts@ == old(self).contacts@.filter(
                |c: Contact| c.first != h && c.second != h,
            ),
    {
        let n = self.contacts.len();
        let mut kept: Vec<Contact> = Vec::new();
        let mut i: usize = 0;
        while i < n
            invariant
                *self == *old(self),
                n == self.contacts@.len(),
                0 <= i <= n,
                kept@ == self.contacts@.subrange(0, i as int).filter(
                    |c: Contact| c.first != h && c.second != h,
                ),
            decreases n - i,
        {
            let c = self.contacts[i];
            if c.first != h && c.second != h {
                kept.push(c);
            }
            proof {
                reveal_with_fuel(Seq::<Contact>::filter, 2);
                let s = self.contacts@;
                assert(s.subrange(0, i as int + 1).drop_last() =~= s.subrange(0, i as int));
                assert(s.subrange(0, i as int + 1).last() == s[i as int]);
                assert(kept@ =~= s.subrange(0, i as int + 1).filter(
                    |c: Contact| c.first != h && c.second != h,
                ));
            }
            i = i + 1;
        }
        proof {
            assert(self.contacts@.subrange(0, n as int) =~= self.contacts@);
        }
        self.contacts = kept;
    }
}

} // verus!
