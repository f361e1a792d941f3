//! Reading and writing the bit of one slot across every site.
use vstd::prelude::*;

pub use crate::mask::bit;

use crate::keys::{holds, key_list, sorted_keys, strictly_sorted, texts};
use crate::mask::{lemma_clear_bit, lemma_set_bit, slot_set, MAX_INSTRUMENTATIONS};
use crate::registry::{site_names, Registry, SiteView, TraceSite};
use crate::selector::Selection;

verus! {

/// How a match updates the bit of a slot.
#[derive(Debug, Clone, Copy)]
pub enum BitOp {
    /// Set the bit on matches, clear it on the rest.
    Replace,
    /// Set the bit on matches, leave the rest alone.
    Add,
    /// Clear the bit on matches, leave the rest alone.
    Remove,
}

/// Which of the two masks of a site is meant.
#[derive(Debug, Clone, Copy)]
pub enum SiteMask {
    /// The slots that trace the site.
    Enabled,
    /// The slots for which the site is child-only.
    ChildOnly,
}

/// A set of slots after an update for `slot` on a site that was `hit` or not.
pub open spec fn slots_after(before: Set<u8>, slot: u8, op: BitOp, hit: bool) -> Set<u8> {
    match op {
        BitOp::Replace => if hit {
            before.insert(slot)
        } else {
            before.remove(slot)
        },
        BitOp::Add => if hit {
            before.insert(slot)
        } else {
            before
        },
        BitOp::Remove => if hit {
            before.remove(slot)
        } else {
            before
        },
    }
}

/// A site after an update of one of its masks.
pub open spec fn site_after(
    site: SiteView,
    which: SiteMask,
    slot: u8,
    op: BitOp,
    hit: bool,
) -> SiteView {
    match which {
        SiteMask::Enabled => SiteView { enabled: slots_after(site.enabled, slot, op, hit), ..site },
        SiteMask::ChildOnly => SiteView {
            child_only: slots_after(site.child_only, slot, op, hit),
            ..site
        },
    }
}

/// All sites after an update that hits the sites named in `wanted`.
pub open spec fn sites_after(
    sites: Seq<SiteView>,
    wanted: Set<Seq<char>>,
    which: SiteMask,
    slot: u8,
    op: BitOp,
) -> Seq<SiteView> {
    sites.map_values(
        |site: SiteView| site_after(site, which, slot, op, wanted.contains(site.name)),
    )
}

/// The slots of one of the masks of a site.
pub open spec fn slots_of(site: SiteView, which: SiteMask) -> Set<u8> {
    match which {
        SiteMask::Enabled => site.enabled,
        SiteMask::ChildOnly => site.child_only,
    }
}

/// The sites whose mask holds `slot`.
pub open spec fn sites_with(sites: Seq<SiteView>, which: SiteMask, slot: u8) -> Seq<SiteView> {
    sites.filter(|site: SiteView| slots_of(site, which).contains(slot))
}

/// A mask after an update for `slot`.
fn mask_after(mask: u64, slot: u8, op: BitOp, hit: bool) -> (after: u64)
    requires
        slot < MAX_INSTRUMENTATIONS,
    ensures
        slot_set(after) == slots_after(slot_set(mask), slot, op, hit),
{
    let b = bit(slot);
    proof {
        lemma_set_bit(mask, slot);
        lemma_clear_bit(mask, slot);
    }
    match (op, hit) {
        (BitOp::Replace, true) | (BitOp::Add, true) => mask | b,
        (BitOp::Replace, false) | (BitOp::Remove, true) => mask & !b,
        (BitOp::Add, false) | (BitOp::Remove, false) => mask,
    }
}

/// Updates one of the masks of the site at position `at`.
pub fn update_site(
    registry: &mut Registry,
    at: usize,
    which: SiteMask,
    slot: u8,
    op: BitOp,
    hit: bool,
)
    requires
        at < old(registry).sites@.len(),
        slot < MAX_INSTRUMENTATIONS,
    ensures
        final(registry)@ == old(registry)@.update(
            at as int,
            site_after(old(registry)@[at as int], which, slot, op, hit),
        ),
{
    let site = &registry.sites[at];
    let name = site.name;
    let mut enabled_mask = site.enabled_mask;
    let mut child_only_mask = site.child_only_mask;
    match which {
        SiteMask::Enabled => {
            enabled_mask = mask_after(enabled_mask, slot, op, hit);
        },
        SiteMask::ChildOnly => {
            child_only_mask = mask_after(child_only_mask, slot, op, hit);
        },
    }
    registry.sites.set(at, TraceSite { name, enabled_mask, child_only_mask });
    assert(registry@ =~= old(registry)@.update(
        at as int,
        site_after(old(registry)@[at as int], which, slot, op, hit),
    ));
}

/// Applies a resolved selection to the enabled sites of a slot.
pub fn apply(registry: &mut Registry, selection: &Selection, slot: u8, op: BitOp)
    requires
        slot < MAX_INSTRUMENTATIONS,
        strictly_sorted(texts(selection.keys@)),
    ensures
        final(registry)@ == sites_after(
            old(registry)@,
            texts(selection.keys@).to_set(),
            SiteMask::Enabled,
            slot,
            op,
        ),
{
    let ghost before = registry@;
    let ghost wanted = texts(selection.keys@).to_set();
    let ghost after = sites_after(before, wanted, SiteMask::Enabled, slot, op);
    let mut i: usize = 0;
    while i < registry.sites.len()
        invariant
            i <= registry.sites@.len(),
            slot < MAX_INSTRUMENTATIONS,
            strictly_sorted(texts(selection.keys@)),
            wanted == texts(selection.keys@).to_set(),
            after == sites_after(before, wanted, SiteMask::Enabled, slot, op),
            registry@ == after.take(i as int) + before.skip(i as int),
            before.len() == registry.sites@.len(),
        decreases registry.sites@.len() - i,
    {
        let hit = holds(&selection.keys, registry.sites[i].name);
        assert(registry@[i as int] == before[i as int]);
        assert(registry.sites@[i as int].name@ == before[i as int].name);
        update_site(registry, i, SiteMask::Enabled, slot, op, hit);
        assert(registry@ =~= after.take(i + 1) + before.skip(i + 1));
        i = i + 1;
    }
    assert(registry@ =~= after);
}

/// Updates the bit of a slot on every site alike.
pub fn update_all(registry: &mut Registry, which: SiteMask, slot: u8, op: BitOp)
    requires
        slot < MAX_INSTRUMENTATIONS,
    ensures
        final(registry)@ == old(registry)@.map_values(
            |site: SiteView| site_after(site, which, slot, op, true),
        ),
{
    let ghost before = registry@;
    let ghost after = before.map_values(
        |site: SiteView| site_after(site, which, slot, op, true),
    );
    let mut i: usize = 0;
    while i < registry.sites.len()
        invariant
            i <= registry.sites@.len(),
            slot < MAX_INSTRUMENTATIONS,
            after == before.map_values(|site: SiteView| site_after(site, which, slot, op, true)),
            registry@ == after.take(i as int) + before.skip(i as int),
            before.len() == registry.sites@.len(),
        decreases registry.sites@.len() - i,
    {
        assert(registry@[i as int] == before[i as int]);
        update_site(registry, i, which, slot, op, true);
        assert(registry@ =~= after.take(i + 1) + before.skip(i + 1));
        i = i + 1;
    }
    assert(registry@ =~= after);
}

/// The names of the sites whose mask holds `slot`, one per site.
pub fn names_with(registry: &Registry, which: SiteMask, slot: u8) -> (names: Vec<&'static str>)
    requires
        slot < MAX_INSTRUMENTATIONS,
    ensures
        texts(names@) == site_names(sites_with(registry@, which, slot)),
{
    let b = bit(slot);
    let ghost all = registry@;
    let mut names: Vec<&'static str> = Vec::new();
    let mut i: usize = 0;
    proof {
        reveal(Seq::filter);
    }
    assert(texts(names@) =~= site_names(sites_with(all.take(0), which, slot)));
    while i < registry.sites.len()
        invariant
            i <= registry.sites@.len(),
            slot < MAX_INSTRUMENTATIONS,
            b == 1u64 << slot,
            all == registry@,
            texts(names@) == site_names(sites_with(all.take(i as int), which, slot)),
        decreases registry.sites@.len() - i,
    {
        let site = &registry.sites[i];
        let ghost seen = sites_with(all.take(i as int), which, slot);
        proof {
            reveal(Seq::filter);
            assert(all.take(i + 1).drop_last() =~= all.take(i as int));
            assert(all[i as int] == site@);
        }
        let mask = match which {
            SiteMask::Enabled => site.enabled_mask,
            SiteMask::ChildOnly => site.child_only_mask,
        };
        if mask & b != 0 {
            let ghost before = texts(names@);
            names.push(site.name);
            assert(texts(names@) =~= before.push(site.name@));
            assert(site_names(seen.push(site@)) =~= site_names(seen).push(site.name@));
        }
        i = i + 1;
    }
    assert(all.take(i as int) =~= all);
    names
}

/// The keys enabled for a slot, sorted, each once though several sites may
/// carry it.
pub fn slot_names(registry: &Registry, slot: u8) -> (names: Vec<&'static str>)
    requires
        slot < MAX_INSTRUMENTATIONS,
    ensures
        texts(names@) == key_list(site_names(sites_with(registry@, SiteMask::Enabled, slot))),
{
    let names = names_with(registry, SiteMask::Enabled, slot);
    sorted_keys(&names)
}

/// An update for one slot leaves every other slot of every site alone, and it
/// changes no name.
pub proof fn lemma_slots_are_isolated(
    sites: Seq<SiteView>,
    wanted: Set<Seq<char>>,
    which: SiteMask,
    slot: u8,
    op: BitOp,
)
    ensures
        sites_after(sites, wanted, which, slot, op).len() == sites.len(),
        site_names(sites_after(sites, wanted, which, slot, op)) == site_names(sites),
        forall|i: int, mask: SiteMask, other: u8|
            0 <= i < sites.len() && other != slot ==> (slots_of(
                #[trigger] sites_after(sites, wanted, which, slot, op)[i],
                mask,
            ).contains(other) <==> #[trigger] slots_of(sites[i], mask).contains(other)),
{
    assert(site_names(sites_after(sites, wanted, which, slot, op)) =~= site_names(sites));
}

/// Sites with the same name stay alike for a slot: one update turns both on or
/// off.
pub proof fn lemma_same_name_toggles_together(
    sites: Seq<SiteView>,
    wanted: Set<Seq<char>>,
    which: SiteMask,
    slot: u8,
    op: BitOp,
    i: int,
    j: int,
)
    requires
        0 <= i < sites.len(),
        0 <= j < sites.len(),
        sites[i].name == sites[j].name,
        slots_of(sites[i], which).contains(slot) == slots_of(sites[j], which).contains(slot),
    ensures
        slots_of(sites_after(sites, wanted, which, slot, op)[i], which).contains(slot) == slots_of(
            sites_after(sites, wanted, which, slot, op)[j],
            which,
        ).contains(slot),
{
}

/// After a replacement exactly the sites named in `wanted` are on for the slot.
pub proof fn lemma_replace_is_exact(
    sites: Seq<SiteView>,
    wanted: Set<Seq<char>>,
    which: SiteMask,
    slot: u8,
    i: int,
)
    requires
        0 <= i < sites.len(),
    ensures
        slots_of(
            sites_after(sites, wanted, which, slot, BitOp::Replace)[i],
            which,
        ).contains(slot) == wanted.contains(sites[i].name),
{
}

/// What is listed after a replacement is what was asked for: the names of the sites, those
/// in `wanted` and no others.
pub proof fn lemma_names_after_replacement(
    sites: Seq<SiteView>,
    wanted: Set<Seq<char>>,
    which: SiteMask,
    slot: u8,
)
    ensures
        site_names(
            sites_with(sites_after(sites, wanted, which, slot, BitOp::Replace), which, slot),
        ) == site_names(sites).filter(|name: Seq<char>| wanted.contains(name)),
    decreases sites.len(),
{
    reveal(Seq::filter);
    let after = sites_after(sites, wanted, which, slot, BitOp::Replace);
    let names = site_names(sites);
    if sites.len() == 0 {
        assert(site_names(sites_with(after, which, slot)) =~= names.filter(
            |name: Seq<char>| wanted.contains(name),
        ));
    } else {
        let front = sites.drop_last();
        lemma_names_after_replacement(front, wanted, which, slot);
        lemma_replace_is_exact(sites, wanted, which, slot, sites.len() - 1);
        assert(after.drop_last() =~= sites_after(front, wanted, which, slot, BitOp::Replace));
        assert(names.drop_last() =~= site_names(front));
        let listed = sites_with(after.drop_last(), which, slot);
        assert(site_names(listed.push(after.last())) =~= site_names(listed).push(
            after.last().name,
        ));
    }
}

/// A name is listed for a slot exactly if a site with that name is on for it.
pub proof fn lemma_listed(sites: Seq<SiteView>, which: SiteMask, slot: u8, name: Seq<char>)
    ensures
        site_names(sites_with(sites, which, slot)).contains(name) <==> exists|i: int|
            0 <= i < sites.len() && (#[trigger] sites[i]).name == name && slots_of(
                sites[i],
                which,
            ).contains(slot),
{
    let pred = |site: SiteView| slots_of(site, which).contains(slot);
    let on = sites.filter(pred);
    let names = site_names(on);
    if names.contains(name) {
        let k = choose|k: int| 0 <= k < names.len() && names[k] == name;
        sites.lemma_filter_pred(pred, k);
        sites.lemma_filter_contains_rev(pred, on[k]);
        let i = choose|i: int| 0 <= i < sites.len() && sites[i] == on[k];
        assert(sites[i].name == name);
    }
    if exists|i: int|
        0 <= i < sites.len() && (#[trigger] sites[i]).name == name && slots_of(
            sites[i],
            which,
        ).contains(slot) {
        let i = choose|i: int|
            0 <= i < sites.len() && (#[trigger] sites[i]).name == name && slots_of(
                sites[i],
                which,
            ).contains(slot);
        sites.lemma_filter_contains(pred, i);
        let k = choose|k: int| 0 <= k < on.len() && on[k] == sites[i];
        assert(names[k] == name);
    }
}

/// Enabling unites: a name is listed afterwards if it was listed before, or was asked for
/// and there is a site with it.
pub proof fn lemma_add_unites(
    sites: Seq<SiteView>,
    wanted: Set<Seq<char>>,
    which: SiteMask,
    slot: u8,
    name: Seq<char>,
)
    ensures
        site_names(
            sites_with(sites_after(sites, wanted, which, slot, BitOp::Add), which, slot),
        ).contains(name) <==> site_names(sites_with(sites, which, slot)).contains(name) || (
        wanted.contains(name) && site_names(sites).contains(name)),
{
    let after = sites_after(sites, wanted, which, slot, BitOp::Add);
    lemma_listed(sites, which, slot, name);
    lemma_listed(after, which, slot, name);
    assert forall|i: int| 0 <= i < sites.len() implies (#[trigger] after[i]).name == sites[i].name
        && slots_of(after[i], which).contains(slot) == (slots_of(sites[i], which).contains(slot)
        || wanted.contains(sites[i].name)) && site_names(sites)[i] == sites[i].name by {}
    if site_names(sites_with(sites, which, slot)).contains(name) {
        let i = choose|i: int|
            0 <= i < sites.len() && (#[trigger] sites[i]).name == name && slots_of(
                sites[i],
                which,
            ).contains(slot);
        assert(after[i].name == name);
    }
    if wanted.contains(name) && site_names(sites).contains(name) {
        let i = choose|i: int| 0 <= i < sites.len() && site_names(sites)[i] == name;
        assert(after[i].name == name);
    }
}

/// Disabling subtracts: a name is listed afterwards if it was listed before and was not
/// asked for.
pub proof fn lemma_remove_subtracts(
    sites: Seq<SiteView>,
    wanted: Set<Seq<char>>,
    which: SiteMask,
    slot: u8,
    name: Seq<char>,
)
    ensures
        site_names(
            sites_with(sites_after(sites, wanted, which, slot, BitOp::Remove), which, slot),
        ).contains(name) <==> site_names(sites_with(sites, which, slot)).contains(name)
            && !wanted.contains(name),
{
    let after = sites_after(sites, wanted, which, slot, BitOp::Remove);
    lemma_listed(sites, which, slot, name);
    lemma_listed(after, which, slot, name);
    assert forall|i: int| 0 <= i < sites.len() implies (#[trigger] after[i]).name == sites[i].name
        && slots_of(after[i], which).contains(slot) == (slots_of(sites[i], which).contains(slot)
        && !wanted.contains(sites[i].name)) by {}
    if site_names(sites_with(sites, which, slot)).contains(name) && !wanted.contains(name) {
        let i = choose|i: int|
            0 <= i < sites.len() && (#[trigger] sites[i]).name == name && slots_of(
                sites[i],
                which,
            ).contains(slot);
        assert(after[i].name == name);
    }
}

/// What is listed for another slot, or from the other mask, stays as it was.
pub proof fn lemma_other_listings_stay(
    sites: Seq<SiteView>,
    wanted: Set<Seq<char>>,
    which: SiteMask,
    slot: u8,
    op: BitOp,
    mask: SiteMask,
    other: u8,
)
    requires
        other != slot || mask != which,
    ensures
        site_names(sites_with(sites_after(sites, wanted, which, slot, op), mask, other))
            == site_names(sites_with(sites, mask, other)),
    decreases sites.len(),
{
    reveal(Seq::filter);
    let after = sites_after(sites, wanted, which, slot, op);
    if sites.len() == 0 {
        assert(after =~= sites);
    } else {
        let front = sites.drop_last();
        lemma_other_listings_stay(front, wanted, which, slot, op, mask, other);
        assert(after.drop_last() =~= sites_after(front, wanted, which, slot, op));
        let listed = sites_with(front, mask, other);
        let kept = sites_with(after.drop_last(), mask, other);
        assert(site_names(listed.push(sites.last())) =~= site_names(listed).push(
            sites.last().name,
        ));
        assert(site_names(kept.push(after.last())) =~= site_names(kept).push(after.last().name));
    }
}

/// Whether sites with the same name are alike for a slot.
pub open spec fn names_agree(sites: Seq<SiteView>, which: SiteMask, slot: u8) -> bool {
    forall|i: int, j: int|
        0 <= i < sites.len() && 0 <= j < sites.len() && (#[trigger] sites[i]).name == (
        #[trigger] sites[j]).name ==> slots_of(sites[i], which).contains(slot) == slots_of(
            sites[j],
            which,
        ).contains(slot)
}

/// Sites that nobody traces are alike for every slot.
pub proof fn lemma_fresh_names_agree(sites: Seq<SiteView>, which: SiteMask, slot: u8)
    requires
        forall|i: int|
            0 <= i < sites.len() ==> slots_of(#[trigger] sites[i], which) == Set::<u8>::empty(),
    ensures
        names_agree(sites, which, slot),
{
}

/// No update parts sites with the same name, for whatever slot.
pub proof fn lemma_update_keeps_names_agreeing(
    sites: Seq<SiteView>,
    wanted: Set<Seq<char>>,
    which: SiteMask,
    slot: u8,
    op: BitOp,
    mask: SiteMask,
    other: u8,
)
    requires
        names_agree(sites, mask, other),
    ensures
        names_agree(sites_after(sites, wanted, which, slot, op), mask, other),
{
    let after = sites_after(sites, wanted, which, slot, op);
    assert forall|i: int, j: int|
        0 <= i < after.len() && 0 <= j < after.len() && (#[trigger] after[i]).name == (
        #[trigger] after[j]).name implies slots_of(after[i], mask).contains(other) == slots_of(
        after[j],
        mask,
    ).contains(other) by {
        assert(sites[i].name == sites[j].name);
    }
}

/// Updating every site alike is the update that hits every name.
pub proof fn lemma_update_of_all(sites: Seq<SiteView>, which: SiteMask, slot: u8, op: BitOp)
    ensures
        sites.map_values(|site: SiteView| site_after(site, which, slot, op, true)) == sites_after(
            sites,
            Set::full(),
            which,
            slot,
            op,
        ),
{
    assert(sites.map_values(|site: SiteView| site_after(site, which, slot, op, true))
        =~= sites_after(sites, Set::full(), which, slot, op));
}

/// A replacement forgets what was on before it.
pub proof fn lemma_replace_leaves_nothing_stale(
    sites: Seq<SiteView>,
    first: Set<Seq<char>>,
    second: Set<Seq<char>>,
    which: SiteMask,
    slot: u8,
    op: BitOp,
)
    ensures
        sites_after(
            sites_after(sites, first, which, slot, op),
            second,
            which,
            slot,
            BitOp::Replace,
        ) == sites_after(sites, second, which, slot, BitOp::Replace),
{
    assert(sites_after(
        sites_after(sites, first, which, slot, op),
        second,
        which,
        slot,
        BitOp::Replace,
    ) =~= sites_after(sites, second, which, slot, BitOp::Replace)) by {
        assert forall|i: int| 0 <= i < sites.len() implies #[trigger] sites_after(
            sites_after(sites, first, which, slot, op),
            second,
            which,
            slot,
            BitOp::Replace,
        )[i] == sites_after(sites, second, which, slot, BitOp::Replace)[i] by {
            let site = sites[i];
            let once = site_after(site, which, slot, op, first.contains(site.name));
            let hit = second.contains(site.name);
            assert(site_after(once, which, slot, BitOp::Replace, hit) =~= site_after(
                site,
                which,
                slot,
                BitOp::Replace,
                hit,
            ));
        }
    }
}

/// Making an update twice is making it once.
pub proof fn lemma_update_is_idempotent(
    sites: Seq<SiteView>,
    wanted: Set<Seq<char>>,
    which: SiteMask,
    slot: u8,
    op: BitOp,
)
    ensures
        sites_after(sites_after(sites, wanted, which, slot, op), wanted, which, slot, op)
            == sites_after(sites, wanted, which, slot, op),
{
    let once = sites_after(sites, wanted, which, slot, op);
    let twice = sites_after(once, wanted, which, slot, op);
    assert forall|i: int| 0 <= i < sites.len() implies #[trigger] twice[i] == once[i] by {
        let before = slots_of(sites[i], which);
        let hit = wanted.contains(sites[i].name);
        assert(slots_after(slots_after(before, slot, op, hit), slot, op, hit) =~= slots_after(
            before,
            slot,
            op,
            hit,
        ));
    }
    assert(twice =~= once);
}

/// Disabling what was enabled leaves it disabled, and the rest as it was.
pub proof fn lemma_remove_undoes_add(
    sites: Seq<SiteView>,
    wanted: Set<Seq<char>>,
    which: SiteMask,
    slot: u8,
)
    requires
        forall|i: int|
            0 <= i < sites.len() && wanted.contains((#[trigger] sites[i]).name) ==> !slots_of(
                sites[i],
                which,
            ).contains(slot),
    ensures
        sites_after(
            sites_after(sites, wanted, which, slot, BitOp::Add),
            wanted,
            which,
            slot,
            BitOp::Remove,
        ) == sites,
{
    let added = sites_after(sites, wanted, which, slot, BitOp::Add);
    let removed = sites_after(added, wanted, which, slot, BitOp::Remove);
    assert forall|i: int| 0 <= i < sites.len() implies #[trigger] removed[i] == sites[i] by {
        let before = slots_of(sites[i], which);
        let hit = wanted.contains(sites[i].name);
        assert(slots_after(
            slots_after(before, slot, BitOp::Add, hit),
            slot,
            BitOp::Remove,
            hit,
        ) =~= before);
    }
    assert(removed =~= sites);
}

/// Updates for different slots can be made in either order: neither loses what the
/// other did.
pub proof fn lemma_updates_of_two_slots_commute(
    sites: Seq<SiteView>,
    a: Set<Seq<char>>,
    slot_a: u8,
    op_a: BitOp,
    b: Set<Seq<char>>,
    slot_b: u8,
    op_b: BitOp,
    which: SiteMask,
)
    requires
        slot_a != slot_b,
    ensures
        sites_after(sites_after(sites, a, which, slot_a, op_a), b, which, slot_b, op_b)
            == sites_after(sites_after(sites, b, which, slot_b, op_b), a, which, slot_a, op_a),
{
    let ab = sites_after(sites_after(sites, a, which, slot_a, op_a), b, which, slot_b, op_b);
    let ba = sites_after(sites_after(sites, b, which, slot_b, op_b), a, which, slot_a, op_a);
    assert forall|i: int| 0 <= i < sites.len() implies #[trigger] ab[i] == ba[i] by {
        let before = slots_of(sites[i], which);
        let hit_a = a.contains(sites[i].name);
        let hit_b = b.contains(sites[i].name);
        assert(slots_after(slots_after(before, slot_a, op_a, hit_a), slot_b, op_b, hit_b)
            =~= slots_after(slots_after(before, slot_b, op_b, hit_b), slot_a, op_a, hit_a));
    }
    assert(ab =~= ba);
}

/// What an update does to a site: for the slot and the mask that are meant, a replacement
/// turns it on exactly if the site is hit, an addition turns it on if it is, a removal turns
/// it off if it is. Every other slot, the other mask and the name stay.
pub proof fn lemma_what_an_update_does(
    sites: Seq<SiteView>,
    wanted: Set<Seq<char>>,
    which: SiteMask,
    slot: u8,
    op: BitOp,
    i: int,
    other: u8,
)
    requires
        0 <= i < sites.len(),
    ensures
        ({
            let before = sites[i];
            let after = sites_after(sites, wanted, which, slot, op)[i];
            let hit = wanted.contains(before.name);
            let (was, is, rest_was, rest_is) = match which {
                SiteMask::Enabled => (
                    before.enabled,
                    after.enabled,
                    before.child_only,
                    after.child_only,
                ),
                SiteMask::ChildOnly => (
                    before.child_only,
                    after.child_only,
                    before.enabled,
                    after.enabled,
                ),
            };
            &&& sites_after(sites, wanted, which, slot, op).len() == sites.len()
            &&& after.name == before.name
            &&& rest_is == rest_was
            &&& other != slot ==> (is.contains(other) <==> was.contains(other))
            &&& is.contains(slot) <==> match op {
                BitOp::Replace => hit,
                BitOp::Add => was.contains(slot) || hit,
                BitOp::Remove => was.contains(slot) && !hit,
            }
        }),
{
}

/// Which mask is which, and that those with a slot are all of them, in their order.
pub proof fn lemma_sites_with_a_slot(sites: Seq<SiteView>, site: SiteView, slot: u8)
    ensures
        slots_of(site, SiteMask::Enabled) == site.enabled,
        slots_of(site, SiteMask::ChildOnly) == site.child_only,
        sites_with(sites, SiteMask::Enabled, slot) == sites.filter(
            |s: SiteView| s.enabled.contains(slot),
        ),
        sites_with(sites, SiteMask::ChildOnly, slot) == sites.filter(
            |s: SiteView| s.child_only.contains(slot),
        ),
    decreases sites.len(),
{
    reveal(Seq::filter);
    if sites.len() > 0 {
        lemma_sites_with_a_slot(sites.drop_last(), site, slot);
    } else {
        assert(sites_with(sites, SiteMask::Enabled, slot) =~= sites.filter(
            |s: SiteView| s.enabled.contains(slot),
        ));
        assert(sites_with(sites, SiteMask::ChildOnly, slot) =~= sites.filter(
            |s: SiteView| s.child_only.contains(slot),
        ));
    }
}

/// Updating every site alike: each of them is hit.
pub proof fn lemma_what_an_update_of_all_does(
    site: SiteView,
    which: SiteMask,
    slot: u8,
    op: BitOp,
    other: u8,
)
    ensures
        site_after(site, which, slot, op, true).name == site.name,
        match which {
            SiteMask::Enabled => site_after(site, which, slot, op, true).child_only
                == site.child_only,
            SiteMask::ChildOnly => site_after(site, which, slot, op, true).enabled == site.enabled,
        },
        ({
            let (was, is) = match which {
                SiteMask::Enabled => (site.enabled, site_after(site, which, slot, op, true).enabled),
                SiteMask::ChildOnly => (
                    site.child_only,
                    site_after(site, which, slot, op, true).child_only,
                ),
            };
            &&& other != slot ==> (is.contains(other) <==> was.contains(other))
            &&& is.contains(slot) <==> !(op is Remove)
        }),
{
}

/// The names listed for a slot are those of the sites with it, one per site and in the order
/// of the sites; the keys listed are those names sorted and each once.
pub proof fn lemma_what_is_listed_for_a_slot(
    registry: Registry,
    slot: u8,
    enabled: Vec<&'static str>,
    child_only: Vec<&'static str>,
    keys: Vec<&'static str>,
)
    requires
        slot < MAX_INSTRUMENTATIONS,
        call_ensures(names_with, (&registry, SiteMask::Enabled, slot), enabled),
        call_ensures(names_with, (&registry, SiteMask::ChildOnly, slot), child_only),
        call_ensures(slot_names, (&registry, slot), keys),
    ensures
        texts(enabled@) == registry@.filter(|s: SiteView| s.enabled.contains(slot)).map_values(
            |s: SiteView| s.name,
        ),
        texts(child_only@) == registry@.filter(
            |s: SiteView| s.child_only.contains(slot),
        ).map_values(|s: SiteView| s.name),
        texts(keys@) == key_list(texts(enabled@)),
{
    let any = SiteView { name: Seq::empty(), enabled: Set::empty(), child_only: Set::empty() };
    lemma_sites_with_a_slot(registry@, any, slot);
    assert(texts(enabled@) =~= registry@.filter(
        |s: SiteView| s.enabled.contains(slot),
    ).map_values(|s: SiteView| s.name));
    assert(texts(child_only@) =~= registry@.filter(
        |s: SiteView| s.child_only.contains(slot),
    ).map_values(|s: SiteView| s.name));
}

} // verus!
