//! Which slots are taken, by which tracers, and which of them is distributed.
use vstd::prelude::*;

use crate::instrumentation::BuildError;
use crate::mask::MAX_INSTRUMENTATIONS;

verus! {

/// The table of instrumentation slots.
#[derive(Debug, Clone)]
pub struct Slots<T> {
    /// The tracer of each slot that is taken.
    pub tracers: Vec<Option<T>>,
    /// The slot of the live distributed instrumentation.
    pub distributed: Option<u8>,
    /// The lowest slot that was never taken.
    pub next: u8,
    /// The slots that were given back and can be taken again.
    pub freed: Vec<u8>,
}

impl<T> Slots<T> {
    /// Whether a slot has been handed out and not given back.
    pub open spec fn taken(self, slot: u8) -> bool {
        slot < self.next && !self.freed@.contains(slot)
    }

    /// Whether `slot` belongs to a live instrumentation.
    pub open spec fn live(self, slot: u8) -> bool {
        slot < MAX_INSTRUMENTATIONS && self.tracers@[slot as int] is Some
    }

    /// Whether the account of taken and free slots adds up.
    pub open spec fn counts(self) -> bool {
        &&& self.tracers@.len() == MAX_INSTRUMENTATIONS
        &&& self.next <= MAX_INSTRUMENTATIONS
        &&& self.freed@.no_duplicates()
        &&& forall|i: int| 0 <= i < self.freed@.len() ==> #[trigger] self.freed@[i] < self.next
    }

    /// Whether the table is well-formed: every taken slot has a tracer, no other
    /// slot has one, and the distributed slot is a live one.
    pub open spec fn wf(self) -> bool {
        &&& self.counts()
        &&& forall|slot: u8| #[trigger] self.taken(slot) <==> self.live(slot)
        &&& self.distributed is Some ==> self.live(self.distributed->0)
    }

    /// Whether every slot is taken.
    pub open spec fn full(self) -> bool {
        forall|slot: u8| slot < MAX_INSTRUMENTATIONS ==> #[trigger] self.taken(slot)
    }

    /// The slot that is handed out next: the one given back last, or else the
    /// lowest that was never taken.
    pub open spec fn upcoming(self) -> Option<u8> {
        if self.freed@.len() > 0 {
            Some(self.freed@.last())
        } else if self.next < MAX_INSTRUMENTATIONS {
            Some(self.next)
        } else {
            None
        }
    }

    /// The lowest slot that was never taken, after the upcoming one has been.
    pub open spec fn next_after_take(self) -> int {
        if self.freed@.len() > 0 {
            self.next as int
        } else {
            self.next + 1
        }
    }

    /// The slots that can be taken again, after the upcoming one has been taken.
    pub open spec fn freed_after_take(self) -> Seq<u8> {
        if self.freed@.len() > 0 {
            self.freed@.drop_last()
        } else {
            self.freed@
        }
    }
}

/// What comes of taking a slot for a tracer: the upcoming slot has it, and perhaps the
/// distributed role, and all else is as it was; or the slot is refused and nothing changes.
pub open spec fn registered<T>(
    before: Slots<T>,
    after: Slots<T>,
    tracer: T,
    distributed: bool,
    taken: Result<u8, BuildError>,
) -> bool {
    match taken {
        Ok(slot) => {
            &&& !(distributed && before.distributed is Some)
            &&& !before.full()
            &&& before.upcoming() == Some(slot)
            &&& !before.live(slot)
            &&& after.live(slot)
            &&& after.tracers@ == before.tracers@.update(slot as int, Some(tracer))
            &&& after.distributed == if distributed {
                Some(slot)
            } else {
                before.distributed
            }
            &&& after.next == before.next_after_take()
            &&& after.freed@ == before.freed_after_take()
        },
        Err(BuildError::DistributedAlreadyLive) => {
            &&& distributed && before.distributed is Some
            &&& after == before
        },
        Err(BuildError::SlotsExhausted) => {
            &&& !(distributed && before.distributed is Some)
            &&& before.upcoming() is None
            &&& before.full()
            &&& after == before
        },
    }
}

/// What comes of giving a slot back: its tracer goes, and with it the distributed role if
/// the slot held that; the slot is the upcoming one, and all else is as it was.
pub open spec fn released<T>(before: Slots<T>, after: Slots<T>, slot: u8) -> bool {
    &&& !after.live(slot)
    &&& after.tracers@ == before.tracers@.update(slot as int, None)
    &&& after.distributed == if before.distributed == Some(slot) {
        None
    } else {
        before.distributed
    }
    &&& after.next == before.next
    &&& after.freed@ == before.freed@.push(slot)
    &&& after.upcoming() == Some(slot)
}

impl<T> Default for Slots<T> {
    /// A table with every slot free.
    fn default() -> (slots: Self)
        ensures
            slots.wf(),
            slots.distributed is None,
            slots.next == 0,
            slots.freed@.len() == 0,
            forall|slot: u8| !slots.live(slot),
    {
        let mut tracers: Vec<Option<T>> = Vec::new();
        let mut i: u32 = 0;
        while i < MAX_INSTRUMENTATIONS
            invariant
                i <= MAX_INSTRUMENTATIONS,
                tracers@.len() == i,
                forall|k: int| 0 <= k < i ==> (#[trigger] tracers@[k]) is None,
            decreases MAX_INSTRUMENTATIONS - i,
        {
            tracers.push(None);
            i = i + 1;
        }
        let slots = Slots { tracers, distributed: None, next: 0, freed: Vec::new() };
        assert forall|slot: u8| #[trigger] slots.taken(slot) <==> slots.live(slot) by {}
        slots
    }
}

impl<T> Slots<T> {
    /// Takes the next free slot, or nothing when all are taken.
    pub fn allocate(&mut self) -> (slot: Option<u8>)
        requires
            old(self).counts(),
        ensures
            final(self).counts(),
            slot == old(self).upcoming(),
            slot is None <==> old(self).full(),
            slot is None ==> *final(self) == *old(self),
            slot matches Some(s) ==> {
                &&& s < MAX_INSTRUMENTATIONS
                &&& !old(self).taken(s)
                &&& final(self).next == old(self).next_after_take()
                &&& final(self).freed@ == old(self).freed_after_take()
                &&& forall|other: u8| #[trigger]
                    final(self).taken(other) <==> old(self).taken(other) || other == s
            },
            final(self).tracers == old(self).tracers,
            final(self).distributed == old(self).distributed,
    {
        let ghost before = *self;
        if self.freed.len() > 0 {
            let slot = self.freed.pop().unwrap();
            proof {
                let last = before.freed@.len() - 1;
                assert(before.freed@[last] == slot);
                assert(before.freed@.contains(slot));
                assert(!before.taken(slot));
                assert forall|other: u8| #[trigger] self.freed@.contains(other) <==> (
                before.freed@.contains(other) && other != slot) by {
                    if self.freed@.contains(other) {
                        let i = choose|i: int| 0 <= i < self.freed@.len() && self.freed@[i] == other;
                        assert(before.freed@[i] == other);
                    }
                    if before.freed@.contains(other) && other != slot {
                        let i = choose|i: int|
                            0 <= i < before.freed@.len() && before.freed@[i] == other;
                        assert(self.freed@[i] == other);
                    }
                }
                assert forall|i: int| 0 <= i < self.freed@.len() implies #[trigger] self.freed@[i]
                    < self.next by {
                    assert(self.freed@[i] == before.freed@[i]);
                }
            }
            return Some(slot);
        }
        if (self.next as u32) < MAX_INSTRUMENTATIONS {
            let slot = self.next;
            assert(!before.taken(slot));
            self.next = slot + 1;
            return Some(slot);
        }
        assert forall|slot: u8| slot < MAX_INSTRUMENTATIONS implies #[trigger] before.taken(
            slot,
        ) by {}
        None
    }

    /// Takes a slot for a tracer and, if asked to, makes it the distributed one.
    /// Nothing changes when that is not possible.
    ///
    /// # Errors
    ///
    /// [`BuildError::DistributedAlreadyLive`] if the slot is to be the
    /// distributed one and there is one already; otherwise
    /// [`BuildError::SlotsExhausted`] if every slot is taken.
    pub fn register(&mut self, tracer: T, distributed: bool) -> (taken: Result<u8, BuildError>)
        requires
            old(self).wf(),
        ensures
            final(self).wf(),
            registered(*old(self), *final(self), tracer, distributed, taken),
    {
        if distributed && self.distributed.is_some() {
            return Err(BuildError::DistributedAlreadyLive);
        }
        let ghost before = *self;
        match self.allocate() {
            Some(slot) => {
                assert(!before.live(slot));
                let ghost reserved = *self;
                self.tracers.set(slot as usize, Some(tracer));
                if distributed {
                    self.distributed = Some(slot);
                }
                proof {
                    assert forall|other: u8| #[trigger] self.taken(other) <==> self.live(other) by {
                        assert(before.taken(other) <==> before.live(other));
                        assert(reserved.taken(other) == self.taken(other));
                    }
                    if before.distributed is Some {
                        assert(before.live(before.distributed->0));
                    }
                }
                Ok(slot)
            },
            None => Err(BuildError::SlotsExhausted),
        }
    }

    /// Gives a slot back: its tracer goes, and with it the distributed role if
    /// the slot held that.
    pub fn release(&mut self, slot: u8)
        requires
            old(self).wf(),
            old(self).live(slot),
        ensures
            final(self).wf(),
            released(*old(self), *final(self), slot),
    {
        let ghost before = *self;
        assert(before.taken(slot));
        self.tracers.set(slot as usize, None);
        let held = match self.distributed {
            Some(current) => current == slot,
            None => false,
        };
        if held {
            self.distributed = None;
        }
        self.freed.push(slot);
        proof {
            assert forall|other: u8| #[trigger] self.freed@.contains(other) <==> (
            before.freed@.contains(other) || other == slot) by {
                if before.freed@.contains(other) {
                    let i = choose|i: int|
                        0 <= i < before.freed@.len() && before.freed@[i] == other;
                    assert(self.freed@[i] == other);
                }
                if other == slot {
                    assert(self.freed@[self.freed@.len() - 1] == other);
                }
                if self.freed@.contains(other) && other != slot {
                    let i = choose|i: int| 0 <= i < self.freed@.len() && self.freed@[i] == other;
                    assert(before.freed@[i] == other);
                }
            }
            assert forall|other: u8| #[trigger] self.taken(other) <==> self.live(other) by {
                assert(before.taken(other) <==> before.live(other));
            }
            assert forall|i: int| 0 <= i < self.freed@.len() implies #[trigger] self.freed@[i]
                < self.next by {
                if i < before.freed@.len() {
                    assert(self.freed@[i] == before.freed@[i]);
                }
            }
        }
    }
}

/// A released slot is the next one to be handed out, so slots can be taken and
/// given back without end.
pub proof fn lemma_released_slot_is_reused<T>(
    first: Slots<T>,
    second: Slots<T>,
    third: Slots<T>,
    slot: u8,
    tracer: T,
    distributed: bool,
    taken: Result<u8, BuildError>,
)
    requires
        first.wf(),
        first.live(slot),
        released(first, second, slot),
        registered(second, third, tracer, distributed, taken),
        !distributed || first.distributed is None || first.distributed == Some(slot),
    ensures
        taken == Ok::<u8, BuildError>(slot),
{
}

/// A table with a free slot always has a next slot to hand out, and one without
/// has none.
pub proof fn lemma_full_has_no_upcoming<T>(slots: Slots<T>)
    requires
        slots.wf(),
    ensures
        slots.full() <==> slots.upcoming() is None,
        slots.full() <==> (forall|slot: u8|
            slot < MAX_INSTRUMENTATIONS ==> #[trigger] slots.live(slot)),
        slots.upcoming() matches Some(slot) ==> slot < MAX_INSTRUMENTATIONS && !slots.live(slot),
{
    if slots.freed@.len() > 0 {
        let last = slots.freed@.len() - 1;
        assert(slots.freed@[last] == slots.freed@.last());
        assert(slots.freed@.contains(slots.freed@.last()));
        assert(!slots.taken(slots.freed@.last()));
    } else if slots.next < MAX_INSTRUMENTATIONS {
        assert(!slots.taken(slots.next));
    } else {
        assert forall|slot: u8| slot < MAX_INSTRUMENTATIONS implies #[trigger] slots.taken(slot) by {}
    }
    assert forall|slot: u8| #[trigger] slots.live(slot) <==> slots.taken(slot) by {}
}

/// What a well-formed table is: 64 slots, of which those below the next fresh one have a tracer
/// unless they were given back, and no others; none is given back twice; and a distributed
/// slot has a tracer.
pub proof fn lemma_what_a_well_formed_table_is<T>(slots: Slots<T>)
    ensures
        slots.wf() <==> {
            &&& slots.tracers@.len() == 64
            &&& slots.next <= 64
            &&& slots.freed@.no_duplicates()
            &&& forall|i: int| 0 <= i < slots.freed@.len() ==> #[trigger] slots.freed@[i] < slots.next
            &&& forall|s: u8|
                s < 64 ==> (#[trigger] slots.tracers@[s as int] is Some <==> s < slots.next
                    && !slots.freed@.contains(s))
            &&& slots.distributed matches Some(s) ==> s < 64 && slots.tracers@[s as int] is Some
        },
        forall|s: u8| #[trigger]
            slots.live(s) <==> s < 64 && slots.tracers@[s as int] is Some,
{
    if slots.wf() {
        assert forall|s: u8| s < 64 implies (#[trigger] slots.tracers@[s as int] is Some <==> s
            < slots.next && !slots.freed@.contains(s)) by {
            assert(slots.taken(s) <==> slots.live(s));
        }
    }
    if slots.counts() && (forall|s: u8|
        s < 64 ==> (#[trigger] slots.tracers@[s as int] is Some <==> s < slots.next
            && !slots.freed@.contains(s))) {
        assert forall|s: u8| #[trigger] slots.taken(s) <==> slots.live(s) by {
            if s < 64 {
                assert(slots.tracers@[s as int] is Some <==> s < slots.next
                    && !slots.freed@.contains(s));
            }
        }
    }
}

/// What comes of asking for a slot. It is refused exactly for one of two reasons, the first of
/// which goes before: a second distributed instrumentation, or no slot without a tracer. Then
/// nothing changes. Otherwise a slot without a tracer has this one now, and the distributed
/// role if that was asked for; no other slot changes.
pub proof fn lemma_when_a_slot_is_given<T>(
    before: Slots<T>,
    after: Slots<T>,
    tracer: T,
    distributed: bool,
    taken: Result<u8, BuildError>,
)
    requires
        before.wf(),
        registered(before, after, tracer, distributed, taken),
    ensures
        taken == Err::<u8, BuildError>(BuildError::DistributedAlreadyLive) <==> distributed
            && before.distributed is Some,
        taken == Err::<u8, BuildError>(BuildError::SlotsExhausted) <==> !(distributed
            && before.distributed is Some) && (forall|s: u8|
            s < 64 ==> #[trigger] before.tracers@[s as int] is Some),
        taken is Err ==> after == before,
        taken matches Ok(slot) ==> {
            &&& slot < 64
            &&& before.tracers@[slot as int] is None
            &&& after.tracers@.len() == before.tracers@.len()
            &&& after.tracers@[slot as int] == Some(tracer)
            &&& forall|i: int|
                0 <= i < before.tracers@.len() && i != slot ==> #[trigger] after.tracers@[i]
                    == before.tracers@[i]
            &&& distributed ==> after.distributed == Some(slot)
            &&& !distributed ==> after.distributed == before.distributed
        },
{
    lemma_full_has_no_upcoming(before);
    if before.full() {
        assert forall|s: u8| s < 64 implies #[trigger] before.tracers@[s as int] is Some by {
            assert(before.taken(s));
            assert(before.live(s));
        }
    }
    if forall|s: u8| s < 64 ==> #[trigger] before.tracers@[s as int] is Some {
        assert forall|s: u8| s < MAX_INSTRUMENTATIONS implies #[trigger] before.live(s) by {
            assert(before.tracers@[s as int] is Some);
        }
    }
}

/// Which slot is given: the one that was given back last, and while none waits to be taken
/// again, fresh ones one after the other from the lowest.
pub proof fn lemma_which_slot_is_given<T>(
    before: Slots<T>,
    after: Slots<T>,
    tracer: T,
    distributed: bool,
    slot: u8,
)
    requires
        registered(before, after, tracer, distributed, Ok(slot)),
    ensures
        before.freed@.len() > 0 ==> slot == before.freed@.last() && after.freed@.push(slot)
            == before.freed@ && after.next == before.next,
        before.freed@.len() == 0 ==> slot == before.next && after.next == slot + 1
            && after.freed@.len() == 0,
{
    if before.freed@.len() > 0 {
        assert(before.freed@.drop_last().push(before.freed@.last()) =~= before.freed@);
    }
}

/// What comes of giving a slot back: it has no tracer any more and waits to be taken again, the
/// distributed role goes if the slot had it, and no other slot changes.
pub proof fn lemma_what_giving_back_does<T>(before: Slots<T>, after: Slots<T>, slot: u8)
    requires
        before.wf(),
        slot < 64,
        released(before, after, slot),
    ensures
        after.tracers@.len() == before.tracers@.len(),
        after.tracers@[slot as int] is None,
        forall|i: int|
            0 <= i < before.tracers@.len() && i != slot ==> #[trigger] after.tracers@[i]
                == before.tracers@[i],
        before.distributed == Some(slot) ==> after.distributed is None,
        before.distributed != Some(slot) ==> after.distributed == before.distributed,
        after.freed@ == before.freed@.push(slot),
        after.next == before.next,
{
}

} // verus!
