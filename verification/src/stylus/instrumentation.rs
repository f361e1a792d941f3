//! A default instrumentation that is always there, and named ones beside it.
//!
//! The default instrumentation has the first slot. It traces with the global tracer
//! and puts its spans under the current span. Named instrumentations take the slots
//! behind it, one after the other, each with a tracer and a trace of its own.
use vstd::prelude::*;

pub use crate::mask::MAX_INSTRUMENTATIONS;
pub use crate::stylus::slots::{SlotTable, SlotsExhausted, DEFAULT_SLOT};
pub use crate::stylus::spans::start_spans;

use crate::instrumentation::helpers::{lemma_other_listings_stay, lemma_sites_with_a_slot,
    lemma_update_keeps_names_agreeing, names_agree, site_after, sites_after, sites_with, slots_of,
    update_all, BitOp, SiteMask};
use crate::keys::{key_list, texts};
use crate::registry::{site_names, Registry, SiteView};
use crate::stylus::codec::DecodeError;
use crate::stylus::sites::{apply_encoded, apply_names, encoded_and_applied, first_is_enabled,
    slot_child_only_names, slot_enabled_names, slot_is_enabled};
use crate::stylus::slots::handed_out;

verus! {

/// A named instrumentation. It owns one slot.
#[derive(Debug)]
pub struct Instrumentation {
    slot_number: u8,
}

/// Collects what an [`Instrumentation`] needs.
#[derive(Debug)]
pub struct InstrumentationBuilder<T> {
    /// A name for people to read. Nothing depends on it.
    pub name: Option<String>,
    /// The tracer that makes the spans.
    pub tracer: Option<T>,
}

impl<T> Default for InstrumentationBuilder<T> {
    fn default() -> (builder: Self)
        ensures
            builder.name is None,
            builder.tracer is None,
    {
        InstrumentationBuilder { name: None, tracer: None }
    }
}

impl<T> InstrumentationBuilder<T> {
    /// Attaches a name for people to read.
    #[must_use]
    pub fn name(self, name: String) -> (builder: Self)
        ensures
            builder == (InstrumentationBuilder { name: Some(name), ..self }),
    {
        InstrumentationBuilder { name: Some(name), tracer: self.tracer }
    }

    /// Sets the tracer that makes the spans of this instrumentation. Required.
    #[must_use]
    pub fn tracer(self, tracer: T) -> (builder: Self)
        ensures
            builder == (InstrumentationBuilder { tracer: Some(tracer), ..self }),
    {
        InstrumentationBuilder { name: self.name, tracer: Some(tracer) }
    }

    /// Takes the next slot and registers the tracer there.
    ///
    /// # Errors
    ///
    /// [`SlotsExhausted`] if every slot has been handed out.
    pub fn build(self, table: &mut SlotTable<T>) -> (built: Result<Instrumentation, SlotsExhausted>)
        requires
            old(table).wf(),
            self.tracer is Some,
        ensures
            final(table).wf(),
            handed_out(
                *old(table),
                *final(table),
                self.tracer->0,
                match built {
                    Ok(instrumentation) => Ok(instrumentation.slot()),
                    Err(error) => Err(error),
                },
            ),
    {
        let ghost before = *table;
        let tracer = self.tracer.unwrap();
        if table.next as u32 >= MAX_INSTRUMENTATIONS {
            return Err(SlotsExhausted);
        }
        let slot = table.next;
        table.next = slot + 1;
        table.tracers.set(slot as usize, Some(tracer));
        assert forall|other: u8| #[trigger] table.live(other) implies DEFAULT_SLOT < other
            < table.next by {
            if other != slot {
                assert(before.live(other));
            }
        }
        Ok(Instrumentation { slot_number: slot })
    }
}

impl Instrumentation {
    /// The slot of this instrumentation.
    pub closed spec fn slot(&self) -> u8 {
        self.slot_number
    }

    #[verifier::type_invariant]
    spec fn in_range(&self) -> bool {
        DEFAULT_SLOT < self.slot_number < MAX_INSTRUMENTATIONS
    }

    /// The slot of this instrumentation: its bit in the masks of every site.
    pub fn slot_number(&self) -> (slot: u8)
        ensures
            slot == self.slot(),
            DEFAULT_SLOT < slot < MAX_INSTRUMENTATIONS,
    {
        proof {
            use_type_invariant(self);
        }
        self.slot_number
    }

    /// Starts to build an instrumentation.
    #[must_use]
    pub fn builder<T>() -> (builder: InstrumentationBuilder<T>)
        ensures
            builder.name is None,
            builder.tracer is None,
    {
        InstrumentationBuilder::default()
    }

    /// Makes the functions with these names the ones that this instrumentation traces.
    pub fn set_enabled(&self, registry: &mut Registry, names: &[&str])
        ensures
            final(registry)@ == sites_after(
                old(registry)@,
                texts(names@).to_set(),
                SiteMask::Enabled,
                self.slot(),
                BitOp::Replace,
            ),
    {
        apply_names(registry, names, SiteMask::Enabled, self.slot_number(), BitOp::Replace);
    }

    /// Enables the functions with these names and leaves the others as they are.
    pub fn enable(&self, registry: &mut Registry, names: &[&str])
        ensures
            final(registry)@ == sites_after(
                old(registry)@,
                texts(names@).to_set(),
                SiteMask::Enabled,
                self.slot(),
                BitOp::Add,
            ),
    {
        apply_names(registry, names, SiteMask::Enabled, self.slot_number(), BitOp::Add);
    }

    /// Disables the functions with these names and leaves the others as they are.
    pub fn disable(&self, registry: &mut Registry, names: &[&str])
        ensures
            final(registry)@ == sites_after(
                old(registry)@,
                texts(names@).to_set(),
                SiteMask::Enabled,
                self.slot(),
                BitOp::Remove,
            ),
    {
        apply_names(registry, names, SiteMask::Enabled, self.slot_number(), BitOp::Remove);
    }

    /// Enables every function.
    pub fn enable_all(&self, registry: &mut Registry)
        ensures
            final(registry)@ == old(registry)@.map_values(
                |site: SiteView|
                    site_after(site, SiteMask::Enabled, self.slot(), BitOp::Add, true),
            ),
    {
        update_all(registry, SiteMask::Enabled, self.slot_number(), BitOp::Add);
    }

    /// Disables every function.
    pub fn disable_all(&self, registry: &mut Registry)
        ensures
            final(registry)@ == old(registry)@.map_values(
                |site: SiteView|
                    site_after(site, SiteMask::Enabled, self.slot(), BitOp::Remove, true),
            ),
    {
        update_all(registry, SiteMask::Enabled, self.slot_number(), BitOp::Remove);
    }

    /// Makes the functions with the ids that a text lists the ones that this
    /// instrumentation traces.
    ///
    /// # Errors
    ///
    /// As [`decode`]. Then nothing changes.
    pub fn set_enabled_encoded(&self, registry: &mut Registry, text: &str) -> (applied: Result<
        (),
        DecodeError,
    >)
        ensures
            encoded_and_applied(
                old(registry)@,
                final(registry)@,
                old(registry).keys(),
                text@,
                SiteMask::Enabled,
                self.slot(),
                BitOp::Replace,
                applied,
            ),
    {
        apply_encoded(registry, text, SiteMask::Enabled, self.slot_number(), BitOp::Replace)
    }

    /// Enables the functions with the ids that a text lists.
    ///
    /// # Errors
    ///
    /// As [`decode`]. Then nothing changes.
    pub fn enable_encoded(&self, registry: &mut Registry, text: &str) -> (applied: Result<
        (),
        DecodeError,
    >)
        ensures
            encoded_and_applied(
                old(registry)@,
                final(registry)@,
                old(registry).keys(),
                text@,
                SiteMask::Enabled,
                self.slot(),
                BitOp::Add,
                applied,
            ),
    {
        apply_encoded(registry, text, SiteMask::Enabled, self.slot_number(), BitOp::Add)
    }

    /// Disables the functions with the ids that a text lists.
    ///
    /// # Errors
    ///
    /// As [`decode`]. Then nothing changes.
    pub fn disable_encoded(&self, registry: &mut Registry, text: &str) -> (applied: Result<
        (),
        DecodeError,
    >)
        ensures
            encoded_and_applied(
                old(registry)@,
                final(registry)@,
                old(registry).keys(),
                text@,
                SiteMask::Enabled,
                self.slot(),
                BitOp::Remove,
                applied,
            ),
    {
        apply_encoded(registry, text, SiteMask::Enabled, self.slot_number(), BitOp::Remove)
    }

    /// Makes the functions with these names the child-only ones of this
    /// instrumentation: they get a span only under a recording span of it.
    pub fn set_child_only(&self, registry: &mut Registry, names: &[&str])
        ensures
            final(registry)@ == sites_after(
                old(registry)@,
                texts(names@).to_set(),
                SiteMask::ChildOnly,
                self.slot(),
                BitOp::Replace,
            ),
    {
        apply_names(registry, names, SiteMask::ChildOnly, self.slot_number(), BitOp::Replace);
    }

    /// Makes the functions with these names child-only and leaves the others as they
    /// are.
    pub fn enable_child_only(&self, registry: &mut Registry, names: &[&str])
        ensures
            final(registry)@ == sites_after(
                old(registry)@,
                texts(names@).to_set(),
                SiteMask::ChildOnly,
                self.slot(),
                BitOp::Add,
            ),
    {
        apply_names(registry, names, SiteMask::ChildOnly, self.slot_number(), BitOp::Add);
    }

    /// Makes the functions with these names child-only no more and leaves the others
    /// as they are.
    pub fn disable_child_only(&self, registry: &mut Registry, names: &[&str])
        ensures
            final(registry)@ == sites_after(
                old(registry)@,
                texts(names@).to_set(),
                SiteMask::ChildOnly,
                self.slot(),
                BitOp::Remove,
            ),
    {
        apply_names(registry, names, SiteMask::ChildOnly, self.slot_number(), BitOp::Remove);
    }

    /// Makes the functions with the ids that a text lists the child-only ones.
    ///
    /// # Errors
    ///
    /// As [`decode`]. Then nothing changes.
    pub fn set_child_only_encoded(&self, registry: &mut Registry, text: &str) -> (applied: Result<
        (),
        DecodeError,
    >)
        ensures
            encoded_and_applied(
                old(registry)@,
                final(registry)@,
                old(registry).keys(),
                text@,
                SiteMask::ChildOnly,
                self.slot(),
                BitOp::Replace,
                applied,
            ),
    {
        apply_encoded(registry, text, SiteMask::ChildOnly, self.slot_number(), BitOp::Replace)
    }

    /// Whether a function is enabled.
    #[must_use]
    pub fn is_enabled(&self, registry: &Registry, name: &str) -> (enabled: bool)
        ensures
            enabled == first_is_enabled(registry@, name@, self.slot()),
    {
        slot_is_enabled(registry, name, self.slot_number())
    }

    /// The names of the enabled sites, one per site.
    pub fn enabled_names(&self, registry: &Registry) -> (names: Vec<&'static str>)
        ensures
            texts(names@) == site_names(sites_with(registry@, SiteMask::Enabled, self.slot())),
    {
        slot_enabled_names(registry, self.slot_number())
    }

    /// The names of the child-only sites, one per site.
    pub fn child_only_names(&self, registry: &Registry) -> (names: Vec<&'static str>)
        ensures
            texts(names@) == site_names(sites_with(registry@, SiteMask::ChildOnly, self.slot())),
    {
        slot_child_only_names(registry, self.slot_number())
    }

    /// Ends the instrumentation: nothing is enabled or child-only for its slot any
    /// more, and the tracer goes. The slot is not handed out again.
    pub fn release<T>(self, registry: &mut Registry, table: &mut SlotTable<T>)
        requires
            old(table).wf(),
        ensures
            final(registry)@ == sites_without(old(registry)@, self.slot()),
            settled(old(registry)@, *old(table)) ==> settled(final(registry)@, *final(table)),
            final(table).wf(),
            final(table).next == old(table).next,
            final(table).tracers@ == old(table).tracers@.update(self.slot() as int, None),
    {
        let slot = self.slot_number();
        let ghost before = *table;
        update_all(registry, SiteMask::Enabled, slot, BitOp::Remove);
        update_all(registry, SiteMask::ChildOnly, slot, BitOp::Remove);
        assert(registry@ =~= sites_without(old(registry)@, slot));
        table.tracers.set(slot as usize, None);
        assert forall|other: u8| #[trigger] table.live(other) implies DEFAULT_SLOT < other
            < table.next by {
            assert(before.live(other));
        }
        proof {
            if settled(old(registry)@, before) {
                lemma_release_keeps_settled(old(registry)@, before, *table, slot);
            }
        }
    }
}

/// The sites without any trace of a slot.
pub open spec fn sites_without(sites: Seq<SiteView>, slot: u8) -> Seq<SiteView> {
    sites.map_values(
        |site: SiteView|
            SiteView {
                name: site.name,
                enabled: site.enabled.remove(slot),
                child_only: site.child_only.remove(slot),
            },
    )
}

/// Whether sites and table agree: a named slot without a tracer is set on no site. This
/// holds of fresh sites, and whatever the default instrumentation or a live named one does
/// keeps it.
pub open spec fn settled<T>(sites: Seq<SiteView>, table: SlotTable<T>) -> bool {
    forall|i: int, which: SiteMask, slot: u8|
        0 <= i < sites.len() && slot != DEFAULT_SLOT && !table.live(slot) ==> !(
        #[trigger] slots_of(sites[i], which).contains(slot))
}

/// Sites that nobody traces agree with any table.
pub proof fn lemma_fresh_sites_are_settled<T>(sites: Seq<SiteView>, table: SlotTable<T>)
    requires
        forall|i: int|
            0 <= i < sites.len() ==> (#[trigger] sites[i]).enabled == Set::<u8>::empty()
                && sites[i].child_only == Set::<u8>::empty(),
    ensures
        settled(sites, table),
{
}

/// Building an instrumentation, or failing to, keeps sites and table in agreement.
pub proof fn lemma_build_keeps_settled<T>(
    sites: Seq<SiteView>,
    before: SlotTable<T>,
    after: SlotTable<T>,
    tracer: T,
    taken: Result<u8, SlotsExhausted>,
)
    requires
        before.wf(),
        handed_out(before, after, tracer, taken),
        settled(sites, before),
    ensures
        settled(sites, after),
{
    assert forall|i: int, which: SiteMask, slot: u8|
        0 <= i < sites.len() && slot != DEFAULT_SLOT && !after.live(slot) implies !(
    #[trigger] slots_of(sites[i], which).contains(slot)) by {
        if let Ok(own) = taken {
            if slot < MAX_INSTRUMENTATIONS && slot != own {
                assert(after.tracers@[slot as int] == before.tracers@[slot as int]);
            }
        }
        assert(!before.live(slot));
    }
}

/// A new instrumentation has a slot and a tracer of its own, and nothing is enabled or
/// child-only for it. No other slot changes.
pub proof fn lemma_new_instrumentation_traces_nothing<T>(
    sites: Seq<SiteView>,
    before: SlotTable<T>,
    after: SlotTable<T>,
    tracer: T,
    slot: u8,
    which: SiteMask,
)
    requires
        before.wf(),
        handed_out(before, after, tracer, Ok(slot)),
        settled(sites, before),
    ensures
        DEFAULT_SLOT < slot < MAX_INSTRUMENTATIONS,
        !before.live(slot),
        after.tracers@[slot as int] == Some(tracer),
        forall|other: u8|
            other != slot && other < MAX_INSTRUMENTATIONS ==> #[trigger] after.tracers@[other as int]
                == before.tracers@[other as int],
        site_names(sites_with(sites, which, slot)) == Seq::<Seq<char>>::empty(),
{
    assert(!before.live(slot));
    let on = sites_with(sites, which, slot);
    if on.len() > 0 {
        let pred = |site: SiteView| slots_of(site, which).contains(slot);
        sites.lemma_filter_pred(pred, 0);
        sites.lemma_filter_contains_rev(pred, on[0]);
        let i = choose|i: int| 0 <= i < sites.len() && sites[i] == on[0];
        assert(slots_of(sites[i], which).contains(slot));
    }
    assert(site_names(on) =~= Seq::<Seq<char>>::empty());
}

/// Ending an instrumentation keeps sites and table in agreement.
pub proof fn lemma_release_keeps_settled<T>(
    sites: Seq<SiteView>,
    before: SlotTable<T>,
    after: SlotTable<T>,
    slot: u8,
)
    requires
        before.wf(),
        slot < MAX_INSTRUMENTATIONS,
        after.tracers@ == before.tracers@.update(slot as int, None),
        settled(sites, before),
    ensures
        settled(sites_without(sites, slot), after),
{
    assert forall|i: int, which: SiteMask, other: u8|
        0 <= i < sites.len() && other != DEFAULT_SLOT && !after.live(other) implies !(
    #[trigger] slots_of(sites_without(sites, slot)[i], which).contains(other)) by {
        if other < MAX_INSTRUMENTATIONS && other != slot {
            assert(after.tracers@[other as int] == before.tracers@[other as int]);
        }
        assert(other == slot || !before.live(other));
        assert(other == slot || !slots_of(sites[i], which).contains(other));
    }
}

/// Turning sites on or off for the default instrumentation or for a live named one keeps
/// sites and table in agreement, however the sites are chosen.
pub proof fn lemma_update_keeps_settled<T>(
    sites: Seq<SiteView>,
    table: SlotTable<T>,
    wanted: Set<Seq<char>>,
    which: SiteMask,
    slot: u8,
    op: BitOp,
)
    requires
        slot == DEFAULT_SLOT || table.live(slot),
        settled(sites, table),
    ensures
        settled(sites_after(sites, wanted, which, slot, op), table),
        settled(
            sites.map_values(|site: SiteView| site_after(site, which, slot, op, true)),
            table,
        ),
{
    let after = sites_after(sites, wanted, which, slot, op);
    let all = sites.map_values(|site: SiteView| site_after(site, which, slot, op, true));
    assert forall|i: int, mask: SiteMask, other: u8|
        0 <= i < sites.len() && other != DEFAULT_SLOT && !table.live(other) implies !(
    #[trigger] slots_of(after[i], mask).contains(other)) by {
        assert(!slots_of(sites[i], mask).contains(other));
    }
    assert forall|i: int, mask: SiteMask, other: u8|
        0 <= i < sites.len() && other != DEFAULT_SLOT && !table.live(other) implies !(
    #[trigger] slots_of(all[i], mask).contains(other)) by {
        assert(!slots_of(sites[i], mask).contains(other));
    }
}

/// Ending a named instrumentation leaves what is listed for every other one as it was, and
/// parts no sites with the same name.
pub proof fn lemma_release_leaves_others(
    sites: Seq<SiteView>,
    slot: u8,
    which: SiteMask,
    other: u8,
)
    requires
        other != slot,
    ensures
        site_names(sites_with(sites_without(sites, slot), which, other)) == site_names(
            sites_with(sites, which, other),
        ),
        names_agree(sites, which, other) ==> names_agree(
            sites_without(sites, slot),
            which,
            other,
        ),
{
    let all = Set::<Seq<char>>::full();
    let off = sites_after(sites, all, SiteMask::Enabled, slot, BitOp::Remove);
    let gone = sites_after(off, all, SiteMask::ChildOnly, slot, BitOp::Remove);
    assert(sites_without(sites, slot) =~= gone);
    lemma_other_listings_stay(
        sites,
        all,
        SiteMask::Enabled,
        slot,
        BitOp::Remove,
        which,
        other,
    );
    lemma_other_listings_stay(
        off,
        all,
        SiteMask::ChildOnly,
        slot,
        BitOp::Remove,
        which,
        other,
    );
    if names_agree(sites, which, other) {
        lemma_update_keeps_names_agreeing(
            sites,
            all,
            SiteMask::Enabled,
            slot,
            BitOp::Remove,
            which,
            other,
        );
        lemma_update_keeps_names_agreeing(
            off,
            all,
            SiteMask::ChildOnly,
            slot,
            BitOp::Remove,
            which,
            other,
        );
    }
}

/// What ending an instrumentation does to a site: the slot is neither enabled nor child-only
/// there any more, and nothing else changes.
pub proof fn lemma_what_ending_does_to_sites(sites: Seq<SiteView>, slot: u8, i: int, other: u8)
    requires
        0 <= i < sites.len(),
    ensures
        sites_without(sites, slot).len() == sites.len(),
        sites_without(sites, slot)[i].name == sites[i].name,
        !sites_without(sites, slot)[i].enabled.contains(slot),
        !sites_without(sites, slot)[i].child_only.contains(slot),
        other != slot ==> (sites_without(sites, slot)[i].enabled.contains(other)
            <==> sites[i].enabled.contains(other)),
        other != slot ==> (sites_without(sites, slot)[i].child_only.contains(other)
            <==> sites[i].child_only.contains(other)),
{
}

/// Sites and table agree exactly if no site is enabled or child-only for a named slot without a
/// tracer.
pub proof fn lemma_what_agreement_is<T>(sites: Seq<SiteView>, table: SlotTable<T>)
    ensures
        settled(sites, table) <==> (forall|i: int, slot: u8|
            #![trigger sites[i].enabled.contains(slot)]
            #![trigger sites[i].child_only.contains(slot)]
            0 <= i < sites.len() && slot != 0 && (sites[i].enabled.contains(slot)
                || sites[i].child_only.contains(slot)) ==> slot < 64
                && table.tracers@[slot as int] is Some),
{
    if settled(sites, table) {
        assert forall|i: int, slot: u8|
            #![trigger sites[i].enabled.contains(slot)]
            #![trigger sites[i].child_only.contains(slot)]
            0 <= i < sites.len() && slot != 0 && (sites[i].enabled.contains(slot)
                || sites[i].child_only.contains(slot)) implies slot < 64
            && table.tracers@[slot as int] is Some by {
            if !table.live(slot) {
                assert(!slots_of(sites[i], SiteMask::Enabled).contains(slot));
                assert(!slots_of(sites[i], SiteMask::ChildOnly).contains(slot));
            }
        }
    }
    if forall|i: int, slot: u8|
        #![trigger sites[i].enabled.contains(slot)]
        #![trigger sites[i].child_only.contains(slot)]
        0 <= i < sites.len() && slot != 0 && (sites[i].enabled.contains(slot)
            || sites[i].child_only.contains(slot)) ==> slot < 64
            && table.tracers@[slot as int] is Some {
        assert forall|i: int, which: SiteMask, slot: u8|
            0 <= i < sites.len() && slot != DEFAULT_SLOT && !table.live(slot) implies !(
        #[trigger] slots_of(sites[i], which).contains(slot)) by {
            assert(!sites[i].enabled.contains(slot));
            assert(!sites[i].child_only.contains(slot));
        }
    }
}

/// What a named instrumentation tells of itself is told of its own slot: the names of the sites
/// that are enabled, those that are child-only, and whether a function is enabled.
pub proof fn lemma_a_named_instrumentation_tells_of_its_slot(
    registry: Registry,
    instrumentation: Instrumentation,
    name: &str,
    slot: u8,
    enabled: Vec<&'static str>,
    child_only: Vec<&'static str>,
    is_on: bool,
)
    requires
        call_ensures(Instrumentation::slot_number, (&instrumentation,), slot),
        call_ensures(Instrumentation::enabled_names, (&instrumentation, &registry), enabled),
        call_ensures(Instrumentation::child_only_names, (&instrumentation, &registry), child_only),
        call_ensures(Instrumentation::is_enabled, (&instrumentation, &registry, name), is_on),
    ensures
        slot == instrumentation.slot(),
        0 < slot < 64,
        texts(enabled@) == registry@.filter(|s: SiteView| s.enabled.contains(slot)).map_values(
            |s: SiteView| s.name,
        ),
        texts(child_only@) == registry@.filter(
            |s: SiteView| s.child_only.contains(slot),
        ).map_values(|s: SiteView| s.name),
        is_on <==> first_is_enabled(registry@, name@, slot),
{
    let any = SiteView { name: Seq::empty(), enabled: Set::empty(), child_only: Set::empty() };
    lemma_sites_with_a_slot(registry@, any, slot);
    assert(texts(enabled@) =~= registry@.filter(
        |s: SiteView| s.enabled.contains(slot),
    ).map_values(|s: SiteView| s.name));
    assert(texts(child_only@) =~= registry@.filter(
        |s: SiteView| s.child_only.contains(slot),
    ).map_values(|s: SiteView| s.name));
}

/// What turning functions on and off by name does for a named instrumentation: setting turns
/// on those named and no others, enabling those too, disabling turns those off. All else stays.
pub proof fn lemma_what_turning_functions_on_and_off_does(
    instrumentation: Instrumentation,
    set: &mut Registry,
    more: &mut Registry,
    less: &mut Registry,
    names: &[&str],
    i: int,
    other: u8,
)
    requires
        call_ensures(Instrumentation::set_enabled, (&instrumentation, set, names), ()),
        call_ensures(Instrumentation::enable, (&instrumentation, more, names), ()),
        call_ensures(Instrumentation::disable, (&instrumentation, less, names), ()),
        0 <= i < old(set)@.len(),
        0 <= i < old(more)@.len(),
        0 <= i < old(less)@.len(),
    ensures
        final(set)@.len() == old(set)@.len(),
        final(set)@[i].name == old(set)@[i].name,
        final(set)@[i].child_only == old(set)@[i].child_only,
        other != instrumentation.slot() ==> (final(set)@[i].enabled.contains(other)
            <==> old(set)@[i].enabled.contains(other)),
        final(set)@[i].enabled.contains(instrumentation.slot())
            <==> texts(names@).contains(old(set)@[i].name),
        final(more)@.len() == old(more)@.len(),
        final(more)@[i].name == old(more)@[i].name,
        final(more)@[i].child_only == old(more)@[i].child_only,
        other != instrumentation.slot() ==> (final(more)@[i].enabled.contains(other)
            <==> old(more)@[i].enabled.contains(other)),
        final(more)@[i].enabled.contains(instrumentation.slot())
            <==> old(more)@[i].enabled.contains(instrumentation.slot())
            || texts(names@).contains(old(more)@[i].name),
        final(less)@.len() == old(less)@.len(),
        final(less)@[i].name == old(less)@[i].name,
        final(less)@[i].child_only == old(less)@[i].child_only,
        other != instrumentation.slot() ==> (final(less)@[i].enabled.contains(other)
            <==> old(less)@[i].enabled.contains(other)),
        final(less)@[i].enabled.contains(instrumentation.slot())
            <==> old(less)@[i].enabled.contains(instrumentation.slot())
            && !texts(names@).contains(old(less)@[i].name),
{
}

/// What making functions child-only by name does: setting makes those named child-only and no
/// others, enabling those too, disabling makes those free again. All else stays.
pub proof fn lemma_what_child_only_by_name_does(
    instrumentation: Instrumentation,
    set: &mut Registry,
    more: &mut Registry,
    less: &mut Registry,
    names: &[&str],
    i: int,
    other: u8,
)
    requires
        call_ensures(Instrumentation::set_child_only, (&instrumentation, set, names), ()),
        call_ensures(Instrumentation::enable_child_only, (&instrumentation, more, names), ()),
        call_ensures(Instrumentation::disable_child_only, (&instrumentation, less, names), ()),
        0 <= i < old(set)@.len(),
        0 <= i < old(more)@.len(),
        0 <= i < old(less)@.len(),
    ensures
        final(set)@.len() == old(set)@.len(),
        final(set)@[i].name == old(set)@[i].name,
        final(set)@[i].enabled == old(set)@[i].enabled,
        other != instrumentation.slot() ==> (final(set)@[i].child_only.contains(other)
            <==> old(set)@[i].child_only.contains(other)),
        final(set)@[i].child_only.contains(instrumentation.slot())
            <==> texts(names@).contains(old(set)@[i].name),
        final(more)@.len() == old(more)@.len(),
        final(more)@[i].name == old(more)@[i].name,
        final(more)@[i].enabled == old(more)@[i].enabled,
        other != instrumentation.slot() ==> (final(more)@[i].child_only.contains(other)
            <==> old(more)@[i].child_only.contains(other)),
        final(more)@[i].child_only.contains(instrumentation.slot())
            <==> old(more)@[i].child_only.contains(instrumentation.slot())
            || texts(names@).contains(old(more)@[i].name),
        final(less)@.len() == old(less)@.len(),
        final(less)@[i].name == old(less)@[i].name,
        final(less)@[i].enabled == old(less)@[i].enabled,
        other != instrumentation.slot() ==> (final(less)@[i].child_only.contains(other)
            <==> old(less)@[i].child_only.contains(other)),
        final(less)@[i].child_only.contains(instrumentation.slot())
            <==> old(less)@[i].child_only.contains(instrumentation.slot())
            && !texts(names@).contains(old(less)@[i].name),
{
}

/// Enabling everything turns every function on for a named instrumentation, disabling
/// everything turns every one off, and nothing else changes.
pub proof fn lemma_what_enabling_and_disabling_everything_does(
    instrumentation: Instrumentation,
    on: &mut Registry,
    off: &mut Registry,
    i: int,
    other: u8,
)
    requires
        call_ensures(Instrumentation::enable_all, (&instrumentation, on), ()),
        call_ensures(Instrumentation::disable_all, (&instrumentation, off), ()),
        0 <= i < old(on)@.len(),
        0 <= i < old(off)@.len(),
    ensures
        final(on)@.len() == old(on)@.len(),
        final(on)@[i].name == old(on)@[i].name,
        final(on)@[i].child_only == old(on)@[i].child_only,
        other != instrumentation.slot() ==> (final(on)@[i].enabled.contains(other)
            <==> old(on)@[i].enabled.contains(other)),
        final(on)@[i].enabled.contains(instrumentation.slot()),
        final(off)@.len() == old(off)@.len(),
        final(off)@[i].name == old(off)@[i].name,
        final(off)@[i].child_only == old(off)@[i].child_only,
        other != instrumentation.slot() ==> (final(off)@[i].enabled.contains(other)
            <==> old(off)@[i].enabled.contains(other)),
        !final(off)@[i].enabled.contains(instrumentation.slot()),
{
}

/// An encoded list does what the ids in it say, in the way that the operation is meant to: by
/// the keys that the registry has, to the enabled functions of a named instrumentation
/// or to its child-only ones.
pub proof fn lemma_encoded_lists_go_by_the_keys_of_the_registry(
    instrumentation: Instrumentation,
    set: &mut Registry,
    more: &mut Registry,
    less: &mut Registry,
    child: &mut Registry,
    text: &str,
    set_applied: Result<(), DecodeError>,
    more_applied: Result<(), DecodeError>,
    less_applied: Result<(), DecodeError>,
    child_applied: Result<(), DecodeError>,
)
    requires
        call_ensures(
            Instrumentation::set_enabled_encoded,
            (&instrumentation, set, text),
            set_applied,
        ),
        call_ensures(Instrumentation::enable_encoded, (&instrumentation, more, text), more_applied),
        call_ensures(
            Instrumentation::disable_encoded,
            (&instrumentation, less, text),
            less_applied,
        ),
        call_ensures(
            Instrumentation::set_child_only_encoded,
            (&instrumentation, child, text),
            child_applied,
        ),
    ensures
        encoded_and_applied(
            old(set)@,
            final(set)@,
            key_list(site_names(old(set)@)),
            text@,
            SiteMask::Enabled,
            instrumentation.slot(),
            BitOp::Replace,
            set_applied,
        ),
        encoded_and_applied(
            old(more)@,
            final(more)@,
            key_list(site_names(old(more)@)),
            text@,
            SiteMask::Enabled,
            instrumentation.slot(),
            BitOp::Add,
            more_applied,
        ),
        encoded_and_applied(
            old(less)@,
            final(less)@,
            key_list(site_names(old(less)@)),
            text@,
            SiteMask::Enabled,
            instrumentation.slot(),
            BitOp::Remove,
            less_applied,
        ),
        encoded_and_applied(
            old(child)@,
            final(child)@,
            key_list(site_names(old(child)@)),
            text@,
            SiteMask::ChildOnly,
            instrumentation.slot(),
            BitOp::Replace,
            child_applied,
        ),
{
}

/// Building a named instrumentation hands the next slot out to its tracer, and ending one takes
/// its tracer out of the table and its slot off every site.
pub proof fn lemma_building_and_ending<T>(
    builder: InstrumentationBuilder<T>,
    instrumentation: Instrumentation,
    table: &mut SlotTable<T>,
    built: Result<Instrumentation, SlotsExhausted>,
    registry: &mut Registry,
    last: &mut SlotTable<T>,
)
    requires
        builder.tracer is Some,
        call_ensures(InstrumentationBuilder::<T>::build, (builder, table), built),
        call_ensures(Instrumentation::release::<T>, (instrumentation, registry, last), ()),
    ensures
        handed_out(
            *old(table),
            *final(table),
            builder.tracer->0,
            match built {
                Ok(made) => Ok(made.slot()),
                Err(error) => Err(error),
            },
        ),
        final(registry)@ == sites_without(old(registry)@, instrumentation.slot()),
        final(last).next == old(last).next,
        final(last).tracers@ == old(last).tracers@.update(instrumentation.slot() as int, None),
{
}

} // verus!
