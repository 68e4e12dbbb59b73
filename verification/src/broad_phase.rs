use vstd::prelude::*;

use crate::arena::{seq_live, seq_payload, Arena, Slot};
use crate::entities::{bodies_wf, colliders_wf, Collider, RigidBody};
use crate::handle::Handle;
use crate::math::{Vec2, EXTENT_LIMIT, POS_LIMIT};

verus! {

/// One broad-phase entry: a collider handle together with the collider's
/// last-known world-space bounding box.
#[derive(Clone, Copy, PartialEq, Eq, Structural, Debug)]
pub struct BpEntry {
    pub collider: Handle,
    pub min_x: i64,
    pub min_y: i64,
    pub max_x: i64,
    pub max_y: i64,
}

/// A candidate pair: two broad-phase entries whose boxes touch or overlap.
#[derive(Clone, Copy, PartialEq, Eq, Structural, Debug)]
pub struct CandidatePair {
    pub first: BpEntry,
    pub second: BpEntry,
}

/// The broad phase's coarse test: boxes touch or overlap on both axes.
pub open spec fn boxes_touch(a: BpEntry, b: BpEntry) -> bool {
    a.min_x <= b.max_x && b.min_x <= a.max_x && a.min_y <= b.max_y && b.min_y <= a.max_y
}

/// The entry kept for a collider whose parent body stands at `pos`: the
/// collider's box, centred on the body.
pub open spec fn entry_for(h: Handle, c: Collider, pos: Vec2) -> BpEntry {
    BpEntry {
        collider: h,
        min_x: (pos.x - c.half_extents.x) as i64,
        min_y: (pos.y - c.half_extents.y) as i64,
        max_x: (pos.x + c.half_extents.x) as i64,
        max_y: (pos.y + c.half_extents.y) as i64,
    }
}

/// Box coordinates stay within the range a body position plus a half-extent
/// can reach.
pub open spec fn entry_in_range(e: BpEntry) -> bool {
    &&& -(POS_LIMIT + EXTENT_LIMIT as int) <= e.min_x <= POS_LIMIT + EXTENT_LIMIT as int
    &&& -(POS_LIMIT + EXTENT_LIMIT as int) <= e.min_y <= POS_LIMIT + EXTENT_LIMIT as int
    &&& -(POS_LIMIT + EXTENT_LIMIT as int) <= e.max_x <= POS_LIMIT + EXTENT_LIMIT as int
    &&& -(POS_LIMIT + EXTENT_LIMIT as int) <= e.max_y <= POS_LIMIT + EXTENT_LIMIT as int
}

/// The entries derived from the first `n` collider slots, in slot order: one
/// per occupied slot whose parent body resolves.
pub open spec fn entries_prefix(
    colliders: Seq<Slot<Collider>>,
    bodies: Seq<Slot<RigidBody>>,
    n: int,
) -> Seq<BpEntry>
    decreases n,
{
    if n <= 0 {
        Seq::empty()
    } else {
        let prefix = entries_prefix(colliders, bodies, n - 1);
        let slot = colliders[n - 1];
        if slot.payload is Some && seq_live(bodies, slot.payload->0.parent) {
            prefix.push(
                entry_for(
                    Handle { index: (n - 1) as usize, generation: slot.generation },
                    slot.payload->0,
                    seq_payload(bodies, slot.payload->0.parent).pos,
                ),
            )
        } else {
            prefix
        }
    }
}

/// What the broad phase derives from the whole collider population.
pub open spec fn spec_entries(
    colliders: Seq<Slot<Collider>>,
    bodies: Seq<Slot<RigidBody>>,
) -> Seq<BpEntry> {
    entries_prefix(colliders, bodies, colliders.len() as int)
}

/// The candidate pairs whose first entry is `entries[i]` and whose second
/// entry has an index in `(i, j)`, in index order.
pub open spec fn row_pairs(entries: Seq<BpEntry>, i: int, j: int) -> Seq<CandidatePair>
    decreases j - i,
{
    if j <= i + 1 {
        Seq::empty()
    } else {
        let prefix = row_pairs(entries, i, j - 1);
        if boxes_touch(entries[i], entries[j - 1]) {
            prefix.push(CandidatePair { first: entries[i], second: entries[j - 1] })
        } else {
            prefix
        }
    }
}

/// All candidate pairs whose first entry has an index below `i`: each
/// touching pair of distinct entries is reported exactly once, lower index
/// first, in a fixed scan order.
pub open spec fn pairs_prefix(entries: Seq<BpEntry>, i: int) -> Seq<CandidatePair>
    decreases i,
{
    if i <= 0 {
        Seq::empty()
    } else {
        pairs_prefix(entries, i - 1) + row_pairs(entries, i - 1, entries.len() as int)
    }
}

/// The full candidate set for an entry sequence.
pub open spec fn spec_candidates(entries: Seq<BpEntry>) -> Seq<CandidatePair> {
    pairs_prefix(entries, entries.len() as int)
}

/// The broad phase: a coarse spatial index over collider bounding boxes. Both
/// fields are derived state, rebuilt from the collider population by
/// `update`, and purged synchronously when a collider is removed.
pub struct BroadPhase {
    pub entries: Vec<BpEntry>,
    pub candidates: Vec<CandidatePair>,
}

impl BroadPhase {
    pub fn new() -> (bp: BroadPhase)
        ensures
            bp.entries@ == Seq::<BpEntry>::empty(),
            bp.candidates@ == Seq::<CandidatePair>::empty(),
    {
        BroadPhase { entries: Vec::new(), candidates: Vec::new() }
    }

    /// Rebuilds the spatial entries from the current collider state alone
    /// (new colliders get indexed, moved colliders get re-indexed, nothing
    /// else is consulted), then derives the candidate pairs by a fixed-order
    /// scan. Every entry and every candidate side refers to a valid collider.
    pub fn update(&mut self, bodies: &Arena<RigidBody>, colliders: &Arena<Collider>)
        requires
            bodies_wf(bodies.slots@),
            colliders_wf(colliders.slots@),
        ensures
            final(self).entries@ == spec_entries(colliders.slots@, bodies.slots@),
            final(self).candidates@ == spec_candidates(final(self).entries@),
            forall|k: int|
                0 <= k < final(self).entries@.len() ==> seq_live(
                    colliders.slots@,
                    (#[trigger] final(self).entries@[k]).collider,
                ),
            forall|k: int|
                0 <= k < final(self).candidates@.len() ==> seq_live(
                    colliders.slots@,
                    (#[trigger] final(self).candidates@[k]).first.collider,
                ) && seq_live(colliders.slots@, final(self).candidates@[k].second.collider),
            forall|k: int|
                0 <= k < final(self).entries@.len() ==> entry_in_range(
                    #[trigger] final(self).entries@[k],
                ),
            forall|k: int|
                0 <= k < final(self).candidates@.len() ==> entry_in_range(
                    (#[trigger] final(self).candidates@[k]).first,
                ) && entry_in_range(final(self).candidates@[k].second),
    {
        let cs = &colliders.slots;
        let n = cs.len();
        let mut entries: Vec<BpEntry> = Vec::new();
        let mut i: usize = 0;
        while i < n
            invariant
                bodies_wf(bodies.slots@),
                colliders_wf(colliders.slots@),
                n == colliders.slots@.len(),
                cs == &colliders.slots,
                0 <= i <= n,
                entries@ == entries_prefix(colliders.slots@, bodies.slots@, i as int),
                forall|k: int|
                    0 <= k < entries@.len() ==> seq_live(
                        colliders.slots@,
                        (#[trigger] entries@[k]).collider,
                    ),
                forall|k: int| 0 <= k < entries@.len() ==> entry_in_range(#[trigger] entries@[k]),
            decreases n - i,
        {
            let slot = &cs[i];
            match &slot.payload {
                Some(c) => {
                    let h = Handle { index: i, generation: slot.generation };
                    match bodies.resolve(c.parent) {
                        Some(body) => {
                            proof {
                                assert(colliders.slots@[i as int].payload is Some);
                                assert(bodies.slots@[c.parent.index as int].payload is Some);
                            }
                            let e = BpEntry {
                                collider: h,
                                min_x: body.pos.x - c.half_extents.x,
                                min_y: body.pos.y - c.half_extents.y,
                                max_x: body.pos.x + c.half_extents.x,
                                max_y: body.pos.y + c.half_extents.y,
                            };
                            entries.push(e);
                        },
                        None => {},
                    }
                },
                None => {},
            }
            i = i + 1;
        }
        let m = entries.len();
        let mut cands: Vec<CandidatePair> = Vec::new();
        let mut a: usize = 0;
        while a < m
            invariant
                m == entries@.len(),
                0 <= a <= m,
                cands@ == pairs_prefix(entries@, a as int),
                forall|k: int|
                    0 <= k < entries@.len() ==> seq_live(
                        colliders.slots@,
                        (#[trigger] entries@[k]).collider,
                    ),
                forall|k: int|
                    0 <= k < cands@.len() ==> seq_live(
                        colliders.slots@,
                        (#[trigger] cands@[k]).first.collider,
                    ) && seq_live(colliders.slots@, cands@[k].second.collider),
                forall|k: int| 0 <= k < entries@.len() ==> entry_in_range(#[trigger] entries@[k]),
                forall|k: int|
                    0 <= k < cands@.len() ==> entry_in_range((#[trigger] cands@[k]).first)
                        && entry_in_range(cands@[k].second),
            decreases m - a,
        {
            let ea = entries[a];
            let mut b: usize = a + 1;
            while b < m
                invariant
                    m == entries@.len(),
                    0 <= a < m,
                    a + 1 <= b <= m,
                    ea == entries@[a as int],
                    cands@ == pairs_prefix(entries@, a as int) + row_pairs(
                        entries@,
                        a as int,
                        b as int,
                    ),
                    forall|k: int|
                        0 <= k < entries@.len() ==> seq_live(
                            colliders.slots@,
                            (#[trigger] entries@[k]).collider,
                        ),
                    forall|k: int|
                        0 <= k < cands@.len() ==> seq_live(
                            colliders.slots@,
                            (#[trigger] cands@[k]).first.collider,
                        ) && seq_live(colliders.slots@, cands@[k].second.collider),
                    forall|k: int|
                        0 <= k < entries@.len() ==> entry_in_range(#[trigger] entries@[k]),
                    forall|k: int|
                        0 <= k < cands@.len() ==> entry_in_range((#[trigger] cands@[k]).first)
                            && entry_in_range(cands@[k].second),
                decreases m - b,
            {
                let eb = entries[b];
                if ea.min_x <= eb.max_x && eb.min_x <= ea.max_x && ea.min_y <= eb.max_y
                    && eb.min_y <= ea.max_y {
                    cands.push(CandidatePair { first: ea, second: eb });
                }
                proof {
                    assert(cands@ =~= pairs_prefix(entries@, a as int) + row_pairs(
                        entries@,
                        a as int,
                        b as int + 1,
                    ));
                }
                b = b + 1;
            }
            proof {
                assert(cands@ =~= pairs_prefix(entries@, a as int + 1));
            }
            a = a + 1;
        }
        self.entries = entries;
        self.candidates = cands;
    }

    /// Purges a collider from the broad phase: drops its spatial entry and
    /// every candidate pair involving it, and keeps everything else, in
    /// order.
    pub fn remove_entries_for(&mut self, h: Handle)
        ensures
            final(self).entries@ == old(self).entries@.filter(|e: BpEntry| e.collider != h),
            final(self).candidates@ == old(self).candidates@.filter(
                |p: CandidatePair| p.first.collider != h && p.second.collider != h,
            ),
    {
        let n = self.entries.len();
        let mut kept: Vec<BpEntry> = Vec::new();
        let mut i: usize = 0;
        while i < n
            invariant
                *self == *old(self),
                n == self.entries@.len(),
                0 <= i <= n,
                kept@ == self.entries@.subrange(0, i as int).filter(|e: BpEntry| e.collider != h),
            decreases n - i,
        {
            let e = self.entries[i];
            if e.collider != h {
                kept.push(e);
            }
            proof {
                reveal_with_fuel(Seq::<BpEntry>::filter, 2);
                let s = self.entries@;
                assert(s.subrange(0, i as int + 1).drop_last() =~= s.subrange(0, i as int));
                assert(s.subrange(0, i as int + 1).last() == s[i as int]);
                assert(kept@ =~= s.subrange(0, i as int + 1).filter(
                    |e: BpEntry| e.collider != h,
                ));
            }
            i = i + 1;
        }
        proof {
            assert(self.entries@.subrange(0, n as int) =~= self.entries@);
        }
        let m = self.candidates.len();
        let mut kept_pairs: Vec<CandidatePair> = Vec::new();
        let mut j: usize = 0;
        while j < m
            invariant
                *self == *old(self),
                m == self.candidates@.len(),
                0 <= j <= m,
                kept_pairs@ == self.candidates@.subrange(0, j as int).filter(
                    |p: CandidatePair| p.first.collider != h && p.second.collider != h,
                ),
            decreases m - j,
        {
            let p = self.candidates[j];
            if p.first.collider != h && p.second.collider != h {
                kept_pairs.push(p);
            }
            proof {
                reveal_with_fuel(Seq::<CandidatePair>::filter, 2);
                let s = self.candidates@;
                assert(s.subrange(0, j as int + 1).drop_last() =~= s.subrange(0, j as int));
                assert(s.subrange(0, j as int + 1).last() == s[j as int]);
                assert(kept_pairs@ =~= s.subrange(0, j as int + 1).filter(
                    |p: CandidatePair| p.first.collider != h && p.second.collider != h,
                ));
            }
            j = j + 1;
        }
        proof {
            assert(self.candidates@.subrange(0, m as int) =~= self.candidates@);
        }
        self.entries = kept;
        self.candidates = kept_pairs;
    }
}

} // verus!
