//! Sets of instrumentation slots, one bit per slot of a `u64`.
use vstd::prelude::*;
use vstd::std_specs::bits::axiom_u64_trailing_zeros;

verus! {

/// How many slots there are: one per bit of a mask, and so as many
/// instrumentations can be live at the same time.
pub const MAX_INSTRUMENTATIONS: u32 = 64;

/// Whether the bit of `slot` is set in `mask`.
pub open spec fn has_slot(mask: u64, slot: u8) -> bool {
    slot < MAX_INSTRUMENTATIONS && mask & (1u64 << slot) != 0
}

/// The slots whose bits are set in `mask`.
pub open spec fn slot_set(mask: u64) -> Set<u8> {
    Set::new(|slot: u8| has_slot(mask, slot))
}

/// The mask of one slot.
pub fn bit(slot: u8) -> (mask: u64)
    requires
        slot < MAX_INSTRUMENTATIONS,
    ensures
        mask == 1u64 << slot,
        slot_set(mask) == Set::<u8>::empty().insert(slot),
{
    proof {
        lemma_bit(slot);
    }
    1u64 << slot
}

proof fn lemma_bit(slot: u8)
    requires
        slot < MAX_INSTRUMENTATIONS,
    ensures
        slot_set(1u64 << slot) == Set::<u8>::empty().insert(slot),
{
    assert forall|other: u8| other < 64 implies ((1u64 << slot) & (1u64 << other) != 0) == (other
        == slot) by {
        assert(slot < 64 && other < 64 ==> (((1u64 << slot) & (1u64 << other) != 0) == (other
            == slot))) by (bit_vector);
    }
    assert(slot_set(1u64 << slot) =~= Set::<u8>::empty().insert(slot));
}

/// Setting the bit of a slot adds that slot.
pub proof fn lemma_set_bit(mask: u64, slot: u8)
    requires
        slot < MAX_INSTRUMENTATIONS,
    ensures
        slot_set(mask | (1u64 << slot)) == slot_set(mask).insert(slot),
{
    let grown = mask | (1u64 << slot);
    assert forall|other: u8| has_slot(grown, other) == (has_slot(mask, other) || other == slot) by {
        assert(slot < 64 && other < 64 ==> (((mask | (1u64 << slot)) & (1u64 << other) != 0) == (mask
            & (1u64 << other) != 0 || other == slot))) by (bit_vector);
    }
    assert(slot_set(grown) =~= slot_set(mask).insert(slot));
}

/// Clearing the bit of a slot removes that slot.
pub proof fn lemma_clear_bit(mask: u64, slot: u8)
    requires
        slot < MAX_INSTRUMENTATIONS,
    ensures
        slot_set(mask & !(1u64 << slot)) == slot_set(mask).remove(slot),
{
    let shrunk = mask & !(1u64 << slot);
    assert forall|other: u8| has_slot(shrunk, other) == (has_slot(mask, other) && other != slot) by {
        assert(slot < 64 && other < 64 ==> (((mask & !(1u64 << slot)) & (1u64 << other) != 0) == (
        mask & (1u64 << other) != 0 && other != slot))) by (bit_vector);
    }
    assert(slot_set(shrunk) =~= slot_set(mask).remove(slot));
}

/// The mask zero is the empty set, and the only one.
pub proof fn lemma_empty_mask(mask: u64)
    ensures
        mask == 0 <==> slot_set(mask) == Set::<u8>::empty(),
{
    if mask == 0 {
        assert forall|slot: u8| !has_slot(mask, slot) by {
            assert(0u64 & (1u64 << slot) == 0) by (bit_vector);
        }
        assert(slot_set(mask) =~= Set::<u8>::empty());
    } else {
        let slot = lemma_lowest(mask);
        assert(slot_set(mask).contains(slot));
    }
}

proof fn lemma_lowest(mask: u64) -> (slot: u8)
    requires
        mask != 0,
    ensures
        slot == mask.trailing_zeros(),
        has_slot(mask, slot),
        forall|other: u8| #[trigger] has_slot(mask, other) ==> slot <= other,
        mask & ((mask - 1) as u64) == mask & !(1u64 << slot),
{
    axiom_u64_trailing_zeros(mask);
    let t: u32 = mask.trailing_zeros();
    let slot = t as u8;
    let w = t as u64;
    assert((mask >> w) & 1u64 == 1u64 && w < 64 ==> mask & (1u64 << w) != 0) by (bit_vector);
    assert(slot == w && w < 64 ==> 1u64 << slot == 1u64 << w) by (bit_vector);
    assert forall|other: u8| #[trigger] has_slot(mask, other) implies slot <= other by {
        if other < slot {
            let v = other as u64;
            assert((mask >> v) & 1u64 == 0u64);
            assert((mask >> v) & 1u64 == 0u64 && v < 64 && other == v ==> mask & (1u64 << other)
                == 0) by (bit_vector);
        }
    }
    let below = (mask - 1) as u64;
    let above = (64 - w) as u64;
    assert(mask << above == 0);
    assert(mask & below == mask & !(1u64 << slot)) by (bit_vector)
        requires
            mask != 0,
            w < 64,
            slot == w,
            below == mask - 1,
            above == 64 - w,
            mask << above == 0,
            (mask >> w) & 1u64 == 1u64,
    ;
    slot
}

/// Splits the lowest slot off a mask: that slot, and the mask of the others.
pub fn split_lowest(mask: u64) -> (split: (u8, u64))
    requires
        mask != 0,
    ensures
        has_slot(mask, split.0),
        forall|other: u8| #[trigger] has_slot(mask, other) ==> split.0 <= other,
        slot_set(split.1) == slot_set(mask).remove(split.0),
        split.1 < mask,
{
    let slot: u8 = mask.trailing_zeros() as u8;
    proof {
        let lowest = lemma_lowest(mask);
        lemma_clear_bit(mask, lowest);
        let below = (mask - 1) as u64;
        assert(mask & below < mask) by (bit_vector)
            requires
                mask != 0,
                below == mask - 1,
        ;
    }
    (slot, mask & (mask - 1))
}

/// Two masks with the same slots are the same.
pub proof fn lemma_mask_is_its_slots(a: u64, b: u64)
    requires
        slot_set(a) == slot_set(b),
    ensures
        a == b,
{
    if a != b {
        let d = a ^ b;
        assert(a != b ==> a ^ b != 0) by (bit_vector);
        let slot = lemma_lowest(d);
        assert(slot < 64 && (a ^ b) & (1u64 << slot) != 0 ==> (a & (1u64 << slot) != 0) != (b & (1u64
            << slot) != 0)) by (bit_vector);
        assert(slot_set(a).contains(slot) == has_slot(a, slot));
        assert(slot_set(b).contains(slot) == has_slot(b, slot));
    }
}

/// A slot is in a mask exactly if it is one of the 64 and the bit of its number is set,
/// counted from the lowest.
pub proof fn lemma_slots_are_bit_numbers(mask: u64, slot: u8)
    ensures
        slot_set(mask).contains(slot) <==> slot < 64 && (mask >> slot) & 1 == 1,
        has_slot(mask, slot) <==> slot < 64 && (mask >> slot) & 1 == 1,
{
    assert(slot < 64 ==> ((mask & (1u64 << slot) != 0) == ((mask >> slot) & 1 == 1)))
        by (bit_vector);
}

/// The mask of a slot holds that slot and no other.
pub proof fn lemma_the_mask_of_a_slot_holds_it_alone(slot: u8, mask: u64, other: u8)
    requires
        slot < 64,
        call_ensures(bit, (slot,), mask),
    ensures
        slot_set(mask).contains(other) <==> other == slot,
{
}

/// Taking the lowest slot off a mask gives a slot of the mask that none of the others is
/// below, and leaves the others.
pub proof fn lemma_the_lowest_slot_comes_off(mask: u64, split: (u8, u64), other: u8)
    requires
        mask != 0,
        call_ensures(split_lowest, (mask,), split),
    ensures
        slot_set(mask).contains(split.0),
        slot_set(mask).contains(other) ==> split.0 <= other,
        slot_set(split.1).contains(other) <==> slot_set(mask).contains(other) && other != split.0,
{
    assert(slot_set(mask).contains(other) == has_slot(mask, other));
}

} // verus!
