//! Which slots were handed out, and to which tracers.
use vstd::prelude::*;

use crate::mask::MAX_INSTRUMENTATIONS;

verus! {

/// The slot of the default instrumentation. It is never handed out.
pub const DEFAULT_SLOT: u8 = 0;

/// Every slot has been handed out.
#[derive(Debug, Clone, Copy, PartialEq, Eq, Structural)]
pub struct SlotsExhausted;

impl SlotsExhausted {
    /// The error in words.
    pub fn message(&self) -> (message: String)
        ensures
            message@
                == "no free instrumentation slot (64 created over this process's lifetime)"@,
    {
        "no free instrumentation slot (64 created over this process's lifetime)".to_owned()
    }
}

/// The tracers of the named instrumentations. Slots are handed out in ascending order
/// and never twice.
#[derive(Debug, Clone)]
pub struct SlotTable<T> {
    /// The tracer of each slot.
    pub tracers: Vec<Option<T>>,
    /// The slot that is handed out next.
    pub next: u8,
}

impl<T> SlotTable<T> {
    /// Whether a slot has a tracer.
    pub open spec fn live(self, slot: u8) -> bool {
        slot < MAX_INSTRUMENTATIONS && self.tracers@[slot as int] is Some
    }

    /// Whether the table is well-formed: only slots that were handed out have tracers,
    /// and the default slot is none of them.
    pub open spec fn wf(self) -> bool {
        &&& self.tracers@.len() == MAX_INSTRUMENTATIONS
        &&& DEFAULT_SLOT < self.next <= MAX_INSTRUMENTATIONS
        &&& forall|slot: u8| #[trigger] self.live(slot) ==> DEFAULT_SLOT < slot < self.next
    }
}

/// What comes of taking a slot for a tracer: the next slot has it and all else is as it
/// was, or there is no slot left and nothing changes.
pub open spec fn handed_out<T>(
    before: SlotTable<T>,
    after: SlotTable<T>,
    tracer: T,
    taken: Result<u8, SlotsExhausted>,
) -> bool {
    match taken {
        Ok(slot) => {
            &&& before.next < MAX_INSTRUMENTATIONS
            &&& slot == before.next
            &&& after.next == before.next + 1
            &&& after.tracers@ == before.tracers@.update(slot as int, Some(tracer))
        },
        Err(_) => {
            &&& before.next == MAX_INSTRUMENTATIONS
            &&& after == before
        },
    }
}

impl<T> Default for SlotTable<T> {
    /// A table with nothing handed out.
    fn default() -> (table: Self)
        ensures
            table.wf(),
            table.next == 1,
            forall|slot: u8| !#[trigger] table.live(slot),
    {
        let mut tracers: Vec<Option<T>> = Vec::new();
        let mut i: u32 = 0;
        while i < MAX_INSTRUMENTATIONS
            invariant
                i <= MAX_INSTRUMENTATIONS,
                tracers@.len() == i,
                forall|k: int| 0 <= k < i ==> (#[trigger] tracers@[k]) is None,
            decreases MAX_INSTRUMENTATIONS - i,
        {
            tracers.push(None);
            i = i + 1;
        }
        SlotTable { tracers, next: 1 }
    }
}

/// What a well-formed table is: 64 slots, and a tracer only in slots that have been handed out,
/// of which the first is none.
pub proof fn lemma_what_a_well_formed_table_is<T>(table: SlotTable<T>)
    ensures
        table.wf() <==> {
            &&& table.tracers@.len() == 64
            &&& 0 < table.next <= 64
            &&& forall|s: u8|
                s < 64 && #[trigger] table.tracers@[s as int] is Some ==> 0 < s < table.next
        },
        forall|s: u8| #[trigger]
            table.live(s) <==> s < 64 && table.tracers@[s as int] is Some,
{
    if table.wf() {
        assert forall|s: u8| s < 64 && #[trigger] table.tracers@[s as int] is Some implies 0 < s
            < table.next by {
            assert(table.live(s));
        }
    }
}

/// What comes of asking for a slot: it is refused exactly if all have been handed out, and then
/// nothing changes. Otherwise the next one has the tracer, every other slot is as it was, and
/// the slot behind it is next.
pub proof fn lemma_slots_are_handed_out_one_after_the_other<T>(
    before: SlotTable<T>,
    after: SlotTable<T>,
    tracer: T,
    taken: Result<u8, SlotsExhausted>,
)
    requires
        before.wf(),
        handed_out(before, after, tracer, taken),
    ensures
        taken is Err <==> before.next == 64,
        taken is Err ==> after == before,
        taken matches Ok(slot) ==> {
            &&& slot == before.next
            &&& after.next == slot + 1
            &&& after.tracers@.len() == before.tracers@.len()
            &&& after.tracers@[slot as int] == Some(tracer)
            &&& forall|i: int|
                0 <= i < before.tracers@.len() && i != slot ==> #[trigger] after.tracers@[i]
                    == before.tracers@[i]
        },
{
}

} // verus!
