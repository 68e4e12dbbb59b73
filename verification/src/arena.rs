use vstd::prelude::*;

use crate::handle::Handle;

verus! {

/// One storage slot of an entity set: the slot's current generation, and the
/// stored payload while the slot is occupied.
pub struct Slot<T> {
    pub generation: u64,
    pub payload: Option<T>,
}

/// A generational-index entity set (the handle registry). Every live entity
/// has exactly one valid handle; freeing a slot bumps its generation, so every
/// previously issued handle to that slot becomes stale and is rejected by
/// `resolve` from then on, even after the slot is reused.
pub struct Arena<T> {
    pub slots: Vec<Slot<T>>,
}

/// A handle is valid for a slot sequence iff its generation matches the
/// current generation of its slot and the slot is occupied.
pub open spec fn seq_live<T>(s: Seq<Slot<T>>, h: Handle) -> bool {
    &&& (h.index as int) < s.len()
    &&& s[h.index as int].generation == h.generation
    &&& s[h.index as int].payload is Some
}

/// The payload a valid handle refers to in a slot sequence.
pub open spec fn seq_payload<T>(s: Seq<Slot<T>>, h: Handle) -> T {
    s[h.index as int].payload->0
}

/// The slot sequence after freeing a handle: if the handle is valid, its slot
/// is emptied and the slot's generation is bumped past the handle's; a stale
/// handle changes nothing.
pub open spec fn seq_free<T>(s: Seq<Slot<T>>, h: Handle) -> Seq<Slot<T>> {
    if seq_live(s, h) {
        s.update(
            h.index as int,
            Slot { generation: (h.generation + 1) as u64, payload: None },
        )
    } else {
        s
    }
}

impl<T> Arena<T> {
    /// Number of storage slots, occupied or free.
    pub open spec fn slot_count(self) -> int {
        self.slots@.len() as int
    }

    /// Current generation of slot `i`.
    pub open spec fn gen_at(self, i: int) -> u64 {
        self.slots@[i].generation
    }

    /// Well-formed: every occupied slot can still bump its generation when it
    /// is freed.
    pub open spec fn wf(self) -> bool {
        forall|i: int|
            0 <= i < self.slot_count() ==> ((#[trigger] self.slots@[i]).payload is Some
                ==> self.slots@[i].generation < u64::MAX)
    }

    /// A handle is valid (live) iff its generation matches the current
    /// generation of its slot and the slot is occupied.
    pub open spec fn live(self, h: Handle) -> bool {
        seq_live(self.slots@, h)
    }

    /// The payload a valid handle refers to.
    pub open spec fn payload_of(self, h: Handle) -> T {
        seq_payload(self.slots@, h)
    }

    /// A slot that `allocate` may occupy: free, and with a generation that can
    /// still grow (a slot whose generation is exhausted is retired forever, so
    /// no live handle ever exceeds its slot's generation).
    pub open spec fn slot_reusable(self, i: int) -> bool {
        self.slots@[i].payload is None && self.slots@[i].generation < u64::MAX
    }

    /// The slot `allocate` picks when scanning from `i`: the first reusable
    /// free slot, or `slot_count()` when a fresh slot must be appended.
    pub open spec fn first_reusable_from(self, i: int) -> int
        decreases self.slot_count() - i,
    {
        if i < 0 || i >= self.slot_count() {
            self.slot_count()
        } else if self.slot_reusable(i) {
            i
        } else {
            self.first_reusable_from(i + 1)
        }
    }

    /// `later` is a state the set can reach from `self`: slots are never
    /// destroyed and generations never decrease. Every operation of the set
    /// ensures this relation between its pre- and post-state, so it holds
    /// along any sequence of operations.
    pub open spec fn evolves_to(self, later: Self) -> bool {
        &&& self.slot_count() <= later.slot_count()
        &&& forall|i: int| 0 <= i < self.slot_count() ==> self.gen_at(i) <= #[trigger] later.gen_at(i)
    }

    /// An empty entity set.
    pub fn new() -> (a: Arena<T>)
        ensures
            a.wf(),
            a.slot_count() == 0,
            forall|h: Handle| !a.live(h),
    {
        Arena { slots: Vec::new() }
    }

    /// Inserts a payload and returns a fresh valid handle for it: the first
    /// reusable free slot is occupied at its current generation (the bump
    /// happened when it was freed, never on allocation), or a fresh slot at
    /// generation zero is appended. The new handle differs from every handle
    /// that was valid before the call, and every such handle stays valid,
    /// with its payload unchanged.
    pub fn allocate(&mut self, payload: T) -> (h: Handle)
        requires
            old(self).wf(),
        ensures
            final(self).wf(),
            final(self).live(h),
            final(self).payload_of(h) == payload,
            !old(self).live(h),
            h.index as int == old(self).first_reusable_from(0),
            h.generation == final(self).gen_at(h.index as int),
            h.index as int == old(self).slot_count() ==> h.generation == 0,
            (h.index as int) < old(self).slot_count() ==> h.generation == old(self).gen_at(
                h.index as int,
            ),
            final(self).slot_count() == if h.index as int == old(self).slot_count() {
                old(self).slot_count() + 1
            } else {
                old(self).slot_count()
            },
            forall|i: int|
                0 <= i < old(self).slot_count() ==> final(self).gen_at(i) == old(self).gen_at(i),
            forall|j: int|
                0 <= j < old(self).slot_count() && j != h.index as int ==> final(self).slots@[j]
                    == old(self).slots@[j],
            final(self).slots@[h.index as int] == (Slot {
                generation: h.generation,
                payload: Some(payload),
            }),
            forall|h2: Handle| h2 != h ==> (final(self).live(h2) <==> old(self).live(h2)),
            forall|h2: Handle|
                old(self).live(h2) ==> final(self).payload_of(h2) == old(self).payload_of(h2),
            old(self).evolves_to(*final(self)),
    {
        let n = self.slots.len();
        let mut i: usize = 0;
        while i < n
            invariant
                *self == *old(self),
                old(self).wf(),
                n == old(self).slot_count(),
                0 <= i <= n,
                forall|j: int| 0 <= j < i ==> !old(self).slot_reusable(j),
            decreases n - i,
        {
            if self.slots[i].payload.is_none() && self.slots[i].generation < u64::MAX {
                proof {
                    old(self).lemma_first_reusable_found(i as int);
                }
                let g = self.slots[i].generation;
                self.slots[i] = Slot { generation: g, payload: Some(payload) };
                proof {
                    let snew = self.slots@;
                    let sold = old(self).slots@;
                    assert forall|j: int|
                        0 <= j < snew.len() && (#[trigger] snew[j]).payload
                            is Some implies snew[j].generation < u64::MAX by {
                        if j != i as int {
                            assert(snew[j] == sold[j]);
                        } else {
                            assert(snew[j].generation == g);
                        }
                    }
                }
                return Handle { index: i, generation: g };
            }
            i = i + 1;
        }
        proof {
            old(self).lemma_first_reusable_found(n as int);
        }
        self.slots.push(Slot { generation: 0, payload: Some(payload) });
        Handle { index: n, generation: 0 }
    }

    /// When no slot before `i` is reusable, the scan from the start lands on
    /// `i` if `i` is reusable (or past the end), and past `i` otherwise.
    proof fn lemma_first_reusable_found(self, i: int)
        requires
            0 <= i <= self.slot_count(),
            forall|j: int| 0 <= j < i ==> !self.slot_reusable(j),
        ensures
            i == self.slot_count() ==> self.first_reusable_from(0) == self.slot_count(),
            i < self.slot_count() && self.slot_reusable(i) ==> self.first_reusable_from(0) == i,
        decreases i,
    {
        if i > 0 {
            self.lemma_first_reusable_skip(0, i);
        }
    }

    /// Scanning from `lo` equals scanning from `hi` when no slot in between
    /// is reusable.
    proof fn lemma_first_reusable_skip(self, lo: int, hi: int)
        requires
            0 <= lo <= hi <= self.slot_count(),
            forall|j: int| lo <= j < hi ==> !self.slot_reusable(j),
        ensures
            self.first_reusable_from(lo) == self.first_reusable_from(hi),
        decreases hi - lo,
    {
        if lo < hi {
            self.lemma_first_reusable_skip(lo + 1, hi);
        }
    }

    /// Returns the payload only if the handle's generation matches its slot's
    /// current generation; a stale or out-of-range handle yields `None`,
    /// never a panic and never a different entity.
    pub fn resolve(&self, h: Handle) -> (r: Option<&T>)
        ensures
            r is Some <==> self.live(h),
            r is Some ==> *r->0 == self.payload_of(h),
    {
        if h.index < self.slots.len() {
            let slot = &self.slots[h.index];
            if slot.generation == h.generation {
                match &slot.payload {
                    Some(p) => Some(p),
                    None => None,
                }
            } else {
                None
            }
        } else {
            None
        }
    }

    /// If the handle is valid, empties its slot and bumps the slot's
    /// generation, invalidating every outstanding copy of the handle, and
    /// returns true. A stale handle is a no-op returning false: removal is
    /// idempotent by design. No other slot changes either way.
    pub fn free(&mut self, h: Handle) -> (found: bool)
        requires
            old(self).wf(),
        ensures
            final(self).wf(),
            found == old(self).live(h),
            !found ==> *final(self) == *old(self),
            final(self).slots@ == seq_free(old(self).slots@, h),
            found ==> !final(self).live(h) && final(self).gen_at(h.index as int) > h.generation,
            final(self).slot_count() == old(self).slot_count(),
            forall|h2: Handle|
                h2.index != h.index ==> (final(self).live(h2) <==> old(self).live(h2)),
            forall|h2: Handle| final(self).live(h2) ==> old(self).live(h2),
            forall|h2: Handle|
                final(self).live(h2) ==> final(self).payload_of(h2) == old(self).payload_of(h2),
            old(self).evolves_to(*final(self)),
    {
        if h.index < self.slots.len() && self.slots[h.index].generation == h.generation
            && self.slots[h.index].payload.is_some() {
            assert(self.slots@[h.index as int].generation < u64::MAX);
            let g = self.slots[h.index].generation;
            self.slots[h.index] = Slot { generation: g + 1, payload: None };
            true
        } else {
            false
        }
    }
}

/// Handle uniqueness: no two simultaneously valid handles of one entity set
/// are distinct handles to the same slot — a valid handle's generation is
/// pinned to its slot, so two valid handles are either equal or refer to
/// different slots.
pub proof fn lemma_live_handles_unique<T>(a: Arena<T>, h1: Handle, h2: Handle)
    requires
        a.live(h1),
        a.live(h2),
        h1.index == h2.index,
    ensures
        h1 == h2,
{
}

/// The `evolves_to` relation is transitive, so it holds across any sequence
/// of entity-set operations.
pub proof fn lemma_evolves_trans<T>(a: Arena<T>, b: Arena<T>, c: Arena<T>)
    requires
        a.evolves_to(b),
        b.evolves_to(c),
    ensures
        a.evolves_to(c),
{
    assert forall|i: int| 0 <= i < a.slot_count() implies a.gen_at(i) <= #[trigger] c.gen_at(
        i,
    ) by {
        assert(a.gen_at(i) <= b.gen_at(i));
    }
}

/// Stale rejection: once a slot's generation has passed a handle's generation
/// — as `free` ensures for the handle it frees — that handle never resolves
/// again in any later state of the set, even after the slot is reused, because
/// generations never decrease.
pub proof fn lemma_stale_rejection<T>(freed: Arena<T>, later: Arena<T>, h: Handle)
    requires
        (h.index as int) < freed.slot_count(),
        freed.gen_at(h.index as int) > h.generation,
        freed.evolves_to(later),
    ensures
        !later.live(h),
{
    assert(freed.gen_at(h.index as int) <= later.gen_at(h.index as int));
}

} // verus!
