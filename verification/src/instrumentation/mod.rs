//! An [`Instrumentation`] is one tracing configuration: which of the traceable
//! functions it traces, and the tracer it traces them with.
//!
//! Every instrumentation takes a slot, and there are 64 of them. A site carries a mask
//! with one bit per slot, and [`start_spans`] makes one span for each slot that traces
//! the call.
//!
//! An instrumentation is in-process unless it is made distributed. The active span of an
//! in-process one travels in an envelope beside those of the other slots: it has a trace
//! of its own, joins no other, and is sent to no other process. A distributed one, of
//! which there is at most one at a time, takes the current span for its parent and makes
//! its own span the current one.
use vstd::prelude::*;

pub mod context;
pub mod helpers;
pub mod slots;
pub mod spans;
pub mod tracer;

pub use crate::instrumentation::spans::start_spans;
pub use crate::mask::MAX_INSTRUMENTATIONS;

use crate::glob::glob_matches;
use crate::instrumentation::helpers::{apply, lemma_add_unites, lemma_listed,
    lemma_other_listings_stay, lemma_remove_subtracts, sites_after, sites_with, slot_names,
    slots_of, update_all, BitOp, SiteMask};
use crate::instrumentation::slots::{registered, released, Slots};
use crate::keys::{key_list, lemma_is_the_key_list, lemma_key_list_exists,
    lemma_key_list_is_sorted_and_complete, texts};
use crate::registry::{site_names, Registry, SiteView};
use crate::selector::{any_selects, is_selection, is_unknown,
    lemma_order_repeats_and_blanks_do_not_matter, owned_texts, resolve, selects, trimmed_texts,
    unknown_among, Selection, UnknownKeys};
use crate::text::{precedes, trimmed};

verus! {

/// Why an instrumentation could not be built.
#[derive(Debug, Clone, Copy, PartialEq, Eq, Structural)]
pub enum BuildError {
    /// Every slot is taken.
    SlotsExhausted,
    /// There is a distributed instrumentation already.
    DistributedAlreadyLive,
}

impl BuildError {
    /// The error in words.
    pub fn message(&self) -> (message: String)
        ensures
            message@ == match *self {
                BuildError::SlotsExhausted => "no free instrumentation slot (64 reached)"@,
                BuildError::DistributedAlreadyLive =>
                    "a distributed instrumentation is already configured"@,
            },
    {
        match self {
            BuildError::SlotsExhausted => "no free instrumentation slot (64 reached)".to_owned(),
            BuildError::DistributedAlreadyLive =>
                "a distributed instrumentation is already configured".to_owned(),
        }
    }
}

/// A live instrumentation. It owns one slot, and with it one bit of the masks of
/// every site.
#[derive(Debug)]
pub struct Instrumentation {
    slot_number: u8,
}

/// Collects what an [`Instrumentation`] needs.
#[derive(Debug)]
pub struct InstrumentationBuilder<T> {
    /// A name for people to read. Nothing depends on it.
    pub name: Option<String>,
    /// The tracer that makes the spans.
    pub tracer: Option<T>,
    /// Whether the instrumentation is distributed rather than in-process.
    pub distributed: bool,
}

impl<T> Default for InstrumentationBuilder<T> {
    fn default() -> (builder: Self)
        ensures
            builder.name is None,
            builder.tracer is None,
            !builder.distributed,
    {
        InstrumentationBuilder { name: None, tracer: None, distributed: false }
    }
}

impl<T> InstrumentationBuilder<T> {
    /// Attaches a name for people to read.
    #[must_use]
    pub fn name(self, name: String) -> (builder: Self)
        ensures
            builder == (InstrumentationBuilder { name: Some(name), ..self }),
    {
        InstrumentationBuilder {
            name: Some(name),
            tracer: self.tracer,
            distributed: self.distributed,
        }
    }

    /// Sets the tracer that makes the spans of this instrumentation. Required.
    #[must_use]
    pub fn tracer(self, tracer: T) -> (builder: Self)
        ensures
            builder == (InstrumentationBuilder { tracer: Some(tracer), ..self }),
    {
        InstrumentationBuilder {
            name: self.name,
            tracer: Some(tracer),
            distributed: self.distributed,
        }
    }

    /// Makes the instrumentation distributed instead of in-process. At most one
    /// such instrumentation can be live at a time.
    #[must_use]
    pub fn distributed(self) -> (builder: Self)
        ensures
            builder == (InstrumentationBuilder { distributed: true, ..self }),
    {
        InstrumentationBuilder { name: self.name, tracer: self.tracer, distributed: true }
    }

    /// Takes a slot and registers the tracer there.
    ///
    /// # Errors
    ///
    /// [`BuildError::DistributedAlreadyLive`] if this is to be a distributed
    /// instrumentation and there is one already; otherwise
    /// [`BuildError::SlotsExhausted`] if every slot is taken. Either way nothing
    /// is allocated.
    pub fn build(self, slots: &mut Slots<T>) -> (built: Result<Instrumentation, BuildError>)
        requires
            old(slots).wf(),
            self.tracer is Some,
        ensures
            final(slots).wf(),
            registered(
                *old(slots),
                *final(slots),
                self.tracer->0,
                self.distributed,
                match built {
                    Ok(instrumentation) => Ok(instrumentation.slot()),
                    Err(error) => Err(error),
                },
            ),
    {
        let tracer = self.tracer.unwrap();
        match slots.register(tracer, self.distributed) {
            Ok(slot) => Ok(Instrumentation { slot_number: slot }),
            Err(error) => Err(error),
        }
    }
}

/// What comes of applying `op` to the sites that `selectors` select: either every
/// literal selector is known and the selected sites are updated, or the unknown
/// ones are reported and nothing changes.
pub open spec fn selected_and_applied(
    before: Seq<SiteView>,
    after: Seq<SiteView>,
    selectors: Seq<&str>,
    slot: u8,
    op: BitOp,
    resolved: Result<Selection, UnknownKeys>,
) -> bool {
    let wanted = trimmed_texts(selectors);
    let keys = key_list(site_names(before));
    match resolved {
        Ok(selection) => {
            &&& unknown_among(wanted, keys).len() == 0
            &&& is_selection(selection, wanted, keys)
            &&& after == sites_after(
                before,
                Set::new(|key: Seq<char>| any_selects(wanted, key)),
                SiteMask::Enabled,
                slot,
                op,
            )
        },
        Err(unknown) => {
            &&& unknown.keys@.len() > 0
            &&& owned_texts(unknown.keys@) == unknown_among(wanted, keys)
            &&& after == before
        },
    }
}

impl Instrumentation {
    /// The slot of this instrumentation.
    pub closed spec fn slot(&self) -> u8 {
        self.slot_number
    }

    #[verifier::type_invariant]
    spec fn in_range(&self) -> bool {
        self.slot_number < MAX_INSTRUMENTATIONS
    }

    /// The slot of this instrumentation: its bit in the masks of every site.
    pub fn slot_number(&self) -> (slot: u8)
        ensures
            slot == self.slot(),
            slot < MAX_INSTRUMENTATIONS,
    {
        proof {
            use_type_invariant(self);
        }
        self.slot_number
    }

    /// Starts to build an instrumentation.
    #[must_use]
    pub fn builder<T>() -> (builder: InstrumentationBuilder<T>)
        ensures
            builder.name is None,
            builder.tracer is None,
            !builder.distributed,
    {
        InstrumentationBuilder::default()
    }

    /// Whether this is the distributed instrumentation.
    #[must_use]
    pub fn is_distributed<T>(&self, slots: &Slots<T>) -> (distributed: bool)
        ensures
            distributed == (slots.distributed == Some(self.slot())),
    {
        match slots.distributed {
            Some(slot) => slot == self.slot_number,
            None => false,
        }
    }

    /// Enables every function for this instrumentation.
    pub fn enable_all(&self, registry: &mut Registry)
        ensures
            final(registry)@ == all_enabled(old(registry)@, self.slot()),
    {
        let slot = self.slot_number();
        update_all(registry, SiteMask::Enabled, slot, BitOp::Add);
        assert(registry@ =~= all_enabled(old(registry)@, slot));
    }

    /// Disables every function for this instrumentation.
    pub fn disable_all(&self, registry: &mut Registry)
        ensures
            final(registry)@ == all_disabled(old(registry)@, self.slot()),
    {
        let slot = self.slot_number();
        update_all(registry, SiteMask::Enabled, slot, BitOp::Remove);
        assert(registry@ =~= all_disabled(old(registry)@, slot));
    }

    /// Makes the functions that the selectors resolve to the ones that this
    /// instrumentation traces.
    ///
    /// # Errors
    ///
    /// [`UnknownKeys`] if a literal selector names no function. Then nothing
    /// changes.
    pub fn set_enabled(&self, registry: &mut Registry, selectors: &[&str]) -> (resolved: Result<
        Selection,
        UnknownKeys,
    >)
        ensures
            selected_and_applied(
                old(registry)@,
                final(registry)@,
                selectors@,
                self.slot(),
                BitOp::Replace,
                resolved,
            ),
    {
        self.select(registry, selectors, BitOp::Replace)
    }

    /// Enables the functions that the selectors resolve to and leaves the others
    /// as they are.
    ///
    /// # Errors
    ///
    /// As [`set_enabled`](Self::set_enabled).
    pub fn enable(&self, registry: &mut Registry, selectors: &[&str]) -> (resolved: Result<
        Selection,
        UnknownKeys,
    >)
        ensures
            selected_and_applied(
                old(registry)@,
                final(registry)@,
                selectors@,
                self.slot(),
                BitOp::Add,
                resolved,
            ),
    {
        self.select(registry, selectors, BitOp::Add)
    }

    /// Disables the functions that the selectors resolve to and leaves the others
    /// as they are.
    ///
    /// # Errors
    ///
    /// As [`set_enabled`](Self::set_enabled).
    pub fn disable(&self, registry: &mut Registry, selectors: &[&str]) -> (resolved: Result<
        Selection,
        UnknownKeys,
    >)
        ensures
            selected_and_applied(
                old(registry)@,
                final(registry)@,
                selectors@,
                self.slot(),
                BitOp::Remove,
                resolved,
            ),
    {
        self.select(registry, selectors, BitOp::Remove)
    }

    /// Resolves the selectors and applies `op` to what they select.
    fn select(&self, registry: &mut Registry, selectors: &[&str], op: BitOp) -> (resolved: Result<
        Selection,
        UnknownKeys,
    >)
        ensures
            selected_and_applied(
                old(registry)@,
                final(registry)@,
                selectors@,
                self.slot(),
                op,
                resolved,
            ),
    {
        let slot = self.slot_number();
        match resolve(registry, selectors) {
            Ok(selection) => {
                apply(registry, &selection, slot, op);
                proof {
                    let before = old(registry)@;
                    let wanted = trimmed_texts(selectors@);
                    lemma_key_list_exists(site_names(before));
                    let picked = texts(selection.keys@).to_set();
                    let meant = Set::new(|key: Seq<char>| any_selects(wanted, key));
                    assert forall|i: int| 0 <= i < before.len() implies picked.contains(
                        #[trigger] before[i].name,
                    ) == meant.contains(before[i].name) by {
                        assert(site_names(before)[i] == before[i].name);
                        assert(site_names(before).contains(before[i].name));
                    }
                    assert(sites_after(before, picked, SiteMask::Enabled, slot, op) =~= sites_after(
                        before,
                        meant,
                        SiteMask::Enabled,
                        slot,
                        op,
                    ));
                }
                Ok(selection)
            },
            Err(unknown) => Err(unknown),
        }
    }

    /// The keys that this instrumentation traces, in order.
    pub fn enabled_names(&self, registry: &Registry) -> (names: Vec<&'static str>)
        ensures
            texts(names@) == enabled_keys(registry@, self.slot()),
    {
        let slot = self.slot_number();
        slot_names(registry, slot)
    }

    /// Ends the instrumentation: nothing is traced for its slot any more, the
    /// tracer goes, and the slot can be taken again.
    pub fn release<T>(self, registry: &mut Registry, slots: &mut Slots<T>)
        requires
            old(slots).wf(),
            old(slots).live(self.slot()),
        ensures
            final(registry)@ == all_disabled(old(registry)@, self.slot()),
            settled(old(registry)@, *old(slots)) ==> settled(final(registry)@, *final(slots)),
            final(slots).wf(),
            released(*old(slots), *final(slots), self.slot()),
    {
        self.disable_all(registry);
        let slot = self.slot_number();
        let ghost before = *slots;
        slots.release(slot);
        proof {
            if settled(old(registry)@, before) {
                lemma_release_keeps_settled(old(registry)@, before, *slots, slot);
            }
        }
    }
}

/// The keys that a slot traces, sorted, each once.
pub open spec fn enabled_keys(sites: Seq<SiteView>, slot: u8) -> Seq<Seq<char>> {
    key_list(site_names(sites_with(sites, SiteMask::Enabled, slot)))
}

/// The sites with every function enabled for a slot.
pub open spec fn all_enabled(sites: Seq<SiteView>, slot: u8) -> Seq<SiteView> {
    sites.map_values(|site: SiteView| SiteView { enabled: site.enabled.insert(slot), ..site })
}

/// The sites with every function disabled for a slot.
pub open spec fn all_disabled(sites: Seq<SiteView>, slot: u8) -> Seq<SiteView> {
    sites.map_values(|site: SiteView| SiteView { enabled: site.enabled.remove(slot), ..site })
}

/// Whether sites and slots agree: a slot that is not live is enabled on no site. This holds
/// of fresh sites, and whatever a live instrumentation does keeps it.
pub open spec fn settled<T>(sites: Seq<SiteView>, slots: Slots<T>) -> bool {
    forall|i: int, slot: u8|
        0 <= i < sites.len() && !slots.live(slot) ==> !(#[trigger] sites[i].enabled.contains(slot))
}

/// Sites that nobody traces agree with any slots.
pub proof fn lemma_fresh_sites_are_settled<T>(sites: Seq<SiteView>, slots: Slots<T>)
    requires
        forall|i: int| 0 <= i < sites.len() ==> (#[trigger] sites[i]).enabled == Set::<u8>::empty(),
    ensures
        settled(sites, slots),
{
}

/// Building an instrumentation, or failing to, keeps sites and slots in agreement.
pub proof fn lemma_build_keeps_settled<T>(
    sites: Seq<SiteView>,
    before: Slots<T>,
    after: Slots<T>,
    tracer: T,
    distributed: bool,
    taken: Result<u8, BuildError>,
)
    requires
        before.wf(),
        registered(before, after, tracer, distributed, taken),
        settled(sites, before),
    ensures
        settled(sites, after),
{
    assert forall|i: int, slot: u8| 0 <= i < sites.len() && !after.live(slot) implies !(
    #[trigger] sites[i].enabled.contains(slot)) by {
        if let Ok(own) = taken {
            if slot < MAX_INSTRUMENTATIONS && slot != own {
                assert(after.tracers@[slot as int] == before.tracers@[slot as int]);
            }
        }
        assert(!before.live(slot));
    }
}

/// A new instrumentation has a slot and a tracer of its own, is distributed exactly if it
/// was to be, and traces nothing, also where its slot was used before. No other slot
/// changes.
pub proof fn lemma_new_instrumentation_traces_nothing<T>(
    sites: Seq<SiteView>,
    before: Slots<T>,
    after: Slots<T>,
    tracer: T,
    distributed: bool,
    slot: u8,
)
    requires
        before.wf(),
        registered(before, after, tracer, distributed, Ok(slot)),
        settled(sites, before),
    ensures
        slot < MAX_INSTRUMENTATIONS,
        !before.live(slot),
        after.tracers@[slot as int] == Some(tracer),
        after.distributed == Some(slot) <==> distributed,
        forall|other: u8|
            other != slot && other < MAX_INSTRUMENTATIONS ==> #[trigger] after.tracers@[other as int]
                == before.tracers@[other as int],
        enabled_keys(sites, slot) == Seq::<Seq<char>>::empty(),
{
    let on = sites_with(sites, SiteMask::Enabled, slot);
    if on.len() > 0 {
        let pred = |site: SiteView| slots_of(site, SiteMask::Enabled).contains(slot);
        sites.lemma_filter_pred(pred, 0);
        sites.lemma_filter_contains_rev(pred, on[0]);
        let i = choose|i: int| 0 <= i < sites.len() && sites[i] == on[0];
        assert(sites[i].enabled.contains(slot));
    }
    let none = Seq::<Seq<char>>::empty();
    assert(site_names(on) =~= none);
    lemma_is_the_key_list(none, none);
}

/// Ending an instrumentation keeps sites and slots in agreement.
pub proof fn lemma_release_keeps_settled<T>(
    sites: Seq<SiteView>,
    before: Slots<T>,
    after: Slots<T>,
    slot: u8,
)
    requires
        before.wf(),
        before.live(slot),
        released(before, after, slot),
        settled(sites, before),
    ensures
        settled(all_disabled(sites, slot), after),
{
    assert forall|i: int, other: u8| 0 <= i < sites.len() && !after.live(other) implies !(
    #[trigger] all_disabled(sites, slot)[i].enabled.contains(other)) by {
        if other < MAX_INSTRUMENTATIONS && other != slot {
            assert(after.tracers@[other as int] == before.tracers@[other as int]);
        }
        assert(other == slot || !before.live(other));
        assert(other == slot || !sites[i].enabled.contains(other));
    }
}

/// Selecting functions for a live instrumentation, or failing to, keeps sites and slots in
/// agreement.
pub proof fn lemma_selection_keeps_settled<T>(
    before: Seq<SiteView>,
    after: Seq<SiteView>,
    slots: Slots<T>,
    selectors: Seq<&str>,
    slot: u8,
    op: BitOp,
    resolved: Result<Selection, UnknownKeys>,
)
    requires
        slots.live(slot),
        selected_and_applied(before, after, selectors, slot, op, resolved),
        settled(before, slots),
    ensures
        settled(after, slots),
{
    assert forall|i: int, other: u8| 0 <= i < after.len() && !slots.live(other) implies !(
    #[trigger] after[i].enabled.contains(other)) by {
        assert(!before[i].enabled.contains(other));
    }
}

/// Enabling or disabling every function for a live instrumentation keeps sites and slots in
/// agreement.
pub proof fn lemma_all_or_nothing_keeps_settled<T>(
    sites: Seq<SiteView>,
    slots: Slots<T>,
    slot: u8,
)
    requires
        slots.live(slot),
        settled(sites, slots),
    ensures
        settled(all_enabled(sites, slot), slots),
        settled(all_disabled(sites, slot), slots),
{
    assert forall|i: int, other: u8| 0 <= i < sites.len() && !slots.live(other) implies !(
    #[trigger] all_enabled(sites, slot)[i].enabled.contains(other)) by {
        assert(!sites[i].enabled.contains(other));
    }
    assert forall|i: int, other: u8| 0 <= i < sites.len() && !slots.live(other) implies !(
    #[trigger] all_disabled(sites, slot)[i].enabled.contains(other)) by {
        assert(!sites[i].enabled.contains(other));
    }
}

/// What a replacement selects is what is traced after it: the enabled names are the
/// keys of the selection.
pub proof fn lemma_enabled_names_are_the_selection(
    before: Seq<SiteView>,
    after: Seq<SiteView>,
    selectors: Seq<&str>,
    slot: u8,
    selection: Selection,
)
    requires
        selected_and_applied(before, after, selectors, slot, BitOp::Replace, Ok(selection)),
    ensures
        enabled_keys(after, slot) == texts(selection.keys@),
{
    let names = site_names(sites_with(after, SiteMask::Enabled, slot));
    lemma_key_list_exists(site_names(before));
    assert forall|key: Seq<char>|
        #![trigger texts(selection.keys@).contains(key)]
        #![trigger names.contains(key)]
        texts(selection.keys@).contains(key) <==> names.contains(key) by {
        lemma_listed(after, SiteMask::Enabled, slot, key);
        if texts(selection.keys@).contains(key) {
            assert(site_names(before).contains(key));
            let i = choose|i: int|
                0 <= i < site_names(before).len() && site_names(before)[i] == key;
            assert(after[i].name == key);
        }
        if names.contains(key) {
            let i = choose|i: int|
                0 <= i < after.len() && (#[trigger] after[i]).name == key && slots_of(
                    after[i],
                    SiteMask::Enabled,
                ).contains(slot);
            assert(site_names(before)[i] == key);
            assert(site_names(before).contains(key));
        }
    }
    lemma_is_the_key_list(texts(selection.keys@), names);
}

/// Enabling unites: afterwards the enabled names are those from before together with the
/// keys of the selection.
pub proof fn lemma_enable_unites(
    before: Seq<SiteView>,
    after: Seq<SiteView>,
    selectors: Seq<&str>,
    slot: u8,
    selection: Selection,
)
    requires
        selected_and_applied(before, after, selectors, slot, BitOp::Add, Ok(selection)),
    ensures
        enabled_keys(after, slot).to_set() == enabled_keys(before, slot).to_set().union(
            texts(selection.keys@).to_set(),
        ),
{
    let meant = Set::new(|key: Seq<char>| any_selects(trimmed_texts(selectors), key));
    lemma_key_list_exists(site_names(before));
    lemma_key_list_exists(site_names(sites_with(before, SiteMask::Enabled, slot)));
    lemma_key_list_exists(site_names(sites_with(after, SiteMask::Enabled, slot)));
    assert forall|key: Seq<char>| #[trigger] enabled_keys(after, slot).contains(key)
        <==> enabled_keys(before, slot).contains(key) || texts(selection.keys@).contains(key) by {
        lemma_add_unites(before, meant, SiteMask::Enabled, slot, key);
    }
    assert(enabled_keys(after, slot).to_set() =~= enabled_keys(before, slot).to_set().union(
        texts(selection.keys@).to_set(),
    ));
}

/// Disabling subtracts: afterwards the enabled names are those from before without the keys
/// of the selection.
pub proof fn lemma_disable_subtracts(
    before: Seq<SiteView>,
    after: Seq<SiteView>,
    selectors: Seq<&str>,
    slot: u8,
    selection: Selection,
)
    requires
        selected_and_applied(before, after, selectors, slot, BitOp::Remove, Ok(selection)),
    ensures
        enabled_keys(after, slot).to_set() == enabled_keys(before, slot).to_set().difference(
            texts(selection.keys@).to_set(),
        ),
{
    let meant = Set::new(|key: Seq<char>| any_selects(trimmed_texts(selectors), key));
    let listed = site_names(sites_with(before, SiteMask::Enabled, slot));
    lemma_key_list_exists(site_names(before));
    lemma_key_list_exists(listed);
    lemma_key_list_exists(site_names(sites_with(after, SiteMask::Enabled, slot)));
    assert forall|key: Seq<char>| #[trigger] enabled_keys(after, slot).contains(key)
        <==> enabled_keys(before, slot).contains(key) && !texts(selection.keys@).contains(key) by {
        lemma_remove_subtracts(before, meant, SiteMask::Enabled, slot, key);
        lemma_listed(before, SiteMask::Enabled, slot, key);
        if listed.contains(key) {
            let i = choose|i: int|
                0 <= i < before.len() && (#[trigger] before[i]).name == key && slots_of(
                    before[i],
                    SiteMask::Enabled,
                ).contains(slot);
            assert(site_names(before)[i] == key);
            assert(site_names(before).contains(key));
        }
    }
    assert(enabled_keys(after, slot).to_set() =~= enabled_keys(before, slot).to_set().difference(
        texts(selection.keys@).to_set(),
    ));
}

/// Whatever one instrumentation selects, the enabled names of another stay as they were.
pub proof fn lemma_other_enabled_names_stay(
    before: Seq<SiteView>,
    after: Seq<SiteView>,
    selectors: Seq<&str>,
    slot: u8,
    op: BitOp,
    resolved: Result<Selection, UnknownKeys>,
    other: u8,
)
    requires
        selected_and_applied(before, after, selectors, slot, op, resolved),
        other != slot,
    ensures
        enabled_keys(after, other) == enabled_keys(before, other),
{
    if resolved is Ok {
        let meant = Set::new(|key: Seq<char>| any_selects(trimmed_texts(selectors), key));
        lemma_other_listings_stay(
            before,
            meant,
            SiteMask::Enabled,
            slot,
            op,
            SiteMask::Enabled,
            other,
        );
    }
}

/// Enabling or disabling every function for one instrumentation, or ending it, leaves the
/// enabled names of another as they were.
pub proof fn lemma_all_or_nothing_leaves_others(sites: Seq<SiteView>, slot: u8, other: u8)
    requires
        other != slot,
    ensures
        enabled_keys(all_enabled(sites, slot), other) == enabled_keys(sites, other),
        enabled_keys(all_disabled(sites, slot), other) == enabled_keys(sites, other),
{
    let on = SiteMask::Enabled;
    assert(all_enabled(sites, slot) =~= sites_after(sites, Set::full(), on, slot, BitOp::Add));
    assert(all_disabled(sites, slot) =~= sites_after(sites, Set::full(), on, slot, BitOp::Remove));
    lemma_other_listings_stay(sites, Set::full(), on, slot, BitOp::Add, on, other);
    lemma_other_listings_stay(sites, Set::full(), on, slot, BitOp::Remove, on, other);
}

/// Enabling every function lists every key, and disabling every function lists none.
pub proof fn lemma_all_or_nothing_listed(sites: Seq<SiteView>, slot: u8)
    ensures
        enabled_keys(all_enabled(sites, slot), slot) == key_list(site_names(sites)),
        enabled_keys(all_disabled(sites, slot), slot) == Seq::<Seq<char>>::empty(),
{
    let on = all_enabled(sites, slot);
    let off = all_disabled(sites, slot);
    let none = Seq::<Seq<char>>::empty();
    reveal(Seq::filter);
    assert(on.filter(|site: SiteView| slots_of(site, SiteMask::Enabled).contains(slot)) == on) by {
        lemma_filter_of_all(on, |site: SiteView| slots_of(site, SiteMask::Enabled).contains(slot));
    }
    assert(site_names(on) =~= site_names(sites));
    let listed = site_names(sites_with(off, SiteMask::Enabled, slot));
    assert forall|key: Seq<char>| !(#[trigger] listed.contains(key)) by {
        lemma_listed(off, SiteMask::Enabled, slot, key);
    }
    lemma_is_the_key_list(none, listed);
}

/// A filter that everything passes keeps the list.
proof fn lemma_filter_of_all(list: Seq<SiteView>, pred: spec_fn(SiteView) -> bool)
    requires
        forall|i: int| 0 <= i < list.len() ==> pred(#[trigger] list[i]),
    ensures
        list.filter(pred) == list,
    decreases list.len(),
{
    reveal(Seq::filter);
    if list.len() > 0 {
        lemma_filter_of_all(list.drop_last(), pred);
        assert(list =~= list.drop_last().push(list.last()));
    } else {
        assert(list.filter(pred) =~= list);
    }
}

/// The order of the selectors, repeats and blank ones make no difference to what a
/// selection does: both lists are refused, or both do the same to the sites and select the
/// same keys.
pub proof fn lemma_selections_of_alike_selectors(
    before: Seq<SiteView>,
    after_a: Seq<SiteView>,
    after_b: Seq<SiteView>,
    a: Seq<&str>,
    b: Seq<&str>,
    slot: u8,
    op: BitOp,
    resolved_a: Result<Selection, UnknownKeys>,
    resolved_b: Result<Selection, UnknownKeys>,
)
    requires
        forall|s: Seq<char>|
            #![trigger trimmed_texts(a).contains(s)]
            #![trigger trimmed_texts(b).contains(s)]
            s.len() > 0 ==> (trimmed_texts(a).contains(s) <==> trimmed_texts(b).contains(s)),
        selected_and_applied(before, after_a, a, slot, op, resolved_a),
        selected_and_applied(before, after_b, b, slot, op, resolved_b),
    ensures
        resolved_a is Ok == resolved_b is Ok,
        after_a == after_b,
        resolved_a is Ok ==> texts(resolved_a->Ok_0.keys@) == texts(resolved_b->Ok_0.keys@),
{
    let x = trimmed_texts(a);
    let y = trimmed_texts(b);
    let keys = key_list(site_names(before));
    lemma_order_repeats_and_blanks_do_not_matter(x, y, keys);
    assert(Set::new(|key: Seq<char>| any_selects(x, key)) =~= Set::new(
        |key: Seq<char>| any_selects(y, key),
    ));
    if let Err(unknown) = resolved_a {
        assert(owned_texts(unknown.keys@).len() > 0);
    }
    if let Err(unknown) = resolved_b {
        assert(owned_texts(unknown.keys@).len() > 0);
    }
    if resolved_a is Ok {
        assert(is_selection(resolved_a->Ok_0, x, keys) && is_selection(resolved_b->Ok_0, y, keys));
    }
}

/// What selecting does to the sites. Unless it is refused, each site is hit if some selector,
/// the white space around it aside, is not blank and matches its name: the slot is then on
/// after a replacement exactly for the sites that are hit, on after enabling for those too,
/// and off after disabling for those. Refused, it changes nothing. Other slots, child-only
/// modes and names stay in any case.
pub proof fn lemma_what_selecting_does(
    before: Seq<SiteView>,
    after: Seq<SiteView>,
    selectors: Seq<&str>,
    slot: u8,
    op: BitOp,
    resolved: Result<Selection, UnknownKeys>,
    i: int,
    other: u8,
)
    requires
        selected_and_applied(before, after, selectors, slot, op, resolved),
        0 <= i < before.len(),
    ensures
        after.len() == before.len(),
        after[i].name == before[i].name,
        after[i].child_only == before[i].child_only,
        other != slot ==> (after[i].enabled.contains(other) <==> before[i].enabled.contains(other)),
        resolved is Err ==> after == before,
        ({
            let hit = exists|k: int|
                0 <= k < selectors.len() && trimmed((#[trigger] selectors[k])@).len() > 0
                    && glob_matches(trimmed(selectors[k]@), before[i].name);
            resolved is Ok ==> (after[i].enabled.contains(slot) <==> match op {
                BitOp::Replace => hit,
                BitOp::Add => before[i].enabled.contains(slot) || hit,
                BitOp::Remove => before[i].enabled.contains(slot) && !hit,
            })
        }),
{
    let wanted = trimmed_texts(selectors);
    let name = before[i].name;
    if any_selects(wanted, name) {
        let k = choose|k: int| 0 <= k < wanted.len() && selects(#[trigger] wanted[k], name);
        assert(trimmed(selectors[k]@) == wanted[k]);
    }
    if exists|k: int|
        0 <= k < selectors.len() && trimmed((#[trigger] selectors[k])@).len() > 0 && glob_matches(
            trimmed(selectors[k]@),
            name,
        ) {
        let k = choose|k: int|
            0 <= k < selectors.len() && trimmed((#[trigger] selectors[k])@).len() > 0
                && glob_matches(trimmed(selectors[k]@), name);
        assert(selects(wanted[k], name));
    }
}

/// When selecting is refused: exactly if an exact selector, the white space around it aside,
/// names no site.
pub proof fn lemma_when_selecting_is_refused(
    before: Seq<SiteView>,
    after: Seq<SiteView>,
    selectors: Seq<&str>,
    slot: u8,
    op: BitOp,
    resolved: Result<Selection, UnknownKeys>,
)
    requires
        selected_and_applied(before, after, selectors, slot, op, resolved),
    ensures
        resolved is Err <==> exists|k: int|
            0 <= k < selectors.len() && {
                let s = trimmed((#[trigger] selectors[k])@);
                &&& s.len() > 0
                &&& !s.contains('*')
                &&& forall|i: int| 0 <= i < before.len() ==> (#[trigger] before[i]).name != s
            },
{
    let wanted = trimmed_texts(selectors);
    let names = site_names(before);
    let keys = key_list(names);
    let unknown = |s: Seq<char>| is_unknown(s, keys);
    lemma_key_list_exists(names);
    assert forall|s: Seq<char>| #[trigger] keys.contains(s) <==> exists|i: int|
        0 <= i < before.len() && (#[trigger] before[i]).name == s by {
        if names.contains(s) {
            let i = choose|i: int| 0 <= i < names.len() && names[i] == s;
            assert(before[i].name == s);
        }
        if exists|i: int| 0 <= i < before.len() && (#[trigger] before[i]).name == s {
            let i = choose|i: int| 0 <= i < before.len() && (#[trigger] before[i]).name == s;
            assert(names[i] == s);
        }
    }
    if resolved is Err {
        let list = unknown_among(wanted, keys);
        assert(owned_texts(resolved->Err_0.keys@).len() > 0);
        assert(list.contains(list[0]));
        wanted.lemma_filter_pred(unknown, 0);
        wanted.lemma_filter_contains_rev(unknown, list[0]);
        let k = choose|k: int| 0 <= k < wanted.len() && wanted[k] == list[0];
        assert(trimmed(selectors[k]@) == list[0]);
        assert(!keys.contains(list[0]));
    }
    if exists|k: int|
        0 <= k < selectors.len() && {
            let s = trimmed((#[trigger] selectors[k])@);
            &&& s.len() > 0
            &&& !s.contains('*')
            &&& forall|i: int| 0 <= i < before.len() ==> (#[trigger] before[i]).name != s
        } {
        let k = choose|k: int|
            0 <= k < selectors.len() && {
                let s = trimmed((#[trigger] selectors[k])@);
                &&& s.len() > 0
                &&& !s.contains('*')
                &&& forall|i: int| 0 <= i < before.len() ==> (#[trigger] before[i]).name != s
            };
        assert(wanted[k] == trimmed(selectors[k]@));
        assert(!keys.contains(wanted[k]));
        wanted.lemma_filter_contains(unknown, k);
        assert(unknown_among(wanted, keys).len() > 0);
    }
}

/// What is listed as enabled: the names of the sites that the slot is on for, sorted and each
/// once.
pub proof fn lemma_what_is_listed_as_enabled(sites: Seq<SiteView>, slot: u8, key: Seq<char>)
    ensures
        enabled_keys(sites, slot).contains(key) <==> exists|i: int|
            0 <= i < sites.len() && (#[trigger] sites[i]).name == key
                && sites[i].enabled.contains(slot),
        forall|i: int, j: int|
            0 <= i < j < enabled_keys(sites, slot).len() ==> precedes(
                #[trigger] enabled_keys(sites, slot)[i],
                #[trigger] enabled_keys(sites, slot)[j],
            ),
{
    lemma_key_list_is_sorted_and_complete(
        site_names(sites_with(sites, SiteMask::Enabled, slot)),
        key,
    );
    lemma_listed(sites, SiteMask::Enabled, slot, key);
    if exists|i: int|
        0 <= i < sites.len() && (#[trigger] sites[i]).name == key && sites[i].enabled.contains(
            slot,
        ) {
        let i = choose|i: int|
            0 <= i < sites.len() && (#[trigger] sites[i]).name == key && sites[i].enabled.contains(
                slot,
            );
        assert(slots_of(sites[i], SiteMask::Enabled).contains(slot));
    }
}

/// Enabling everything turns the slot on for every site, disabling everything turns it off for
/// every site, and neither does anything else.
pub proof fn lemma_what_all_and_nothing_do(sites: Seq<SiteView>, slot: u8, i: int, other: u8)
    requires
        0 <= i < sites.len(),
    ensures
        all_enabled(sites, slot).len() == sites.len(),
        all_disabled(sites, slot).len() == sites.len(),
        all_enabled(sites, slot)[i].enabled.contains(slot),
        !all_disabled(sites, slot)[i].enabled.contains(slot),
        other != slot ==> (all_enabled(sites, slot)[i].enabled.contains(other)
            <==> sites[i].enabled.contains(other)),
        other != slot ==> (all_disabled(sites, slot)[i].enabled.contains(other)
            <==> sites[i].enabled.contains(other)),
        all_enabled(sites, slot)[i].name == sites[i].name,
        all_disabled(sites, slot)[i].name == sites[i].name,
        all_enabled(sites, slot)[i].child_only == sites[i].child_only,
        all_disabled(sites, slot)[i].child_only == sites[i].child_only,
{
}

/// Sites and slots agree exactly if no site is on for a slot without a tracer.
pub proof fn lemma_what_agreement_is<T>(sites: Seq<SiteView>, slots: Slots<T>)
    ensures
        settled(sites, slots) <==> (forall|i: int, slot: u8|
            0 <= i < sites.len() && #[trigger] sites[i].enabled.contains(slot) ==> slot < 64
                && slots.tracers@[slot as int] is Some),
{
    if settled(sites, slots) {
        assert forall|i: int, slot: u8| 0 <= i < sites.len() && #[trigger] sites[i].enabled.contains(
            slot,
        ) implies slot < 64 && slots.tracers@[slot as int] is Some by {
            assert(slots.live(slot));
        }
    }
}

/// An instrumentation goes by the one slot it holds, and is distributed exactly if that slot
/// has the role.
pub proof fn lemma_an_instrumentation_is_its_slot<T>(
    instrumentation: Instrumentation,
    slots: Slots<T>,
    slot: u8,
    distributed: bool,
)
    requires
        call_ensures(Instrumentation::slot_number, (&instrumentation,), slot),
        call_ensures(Instrumentation::is_distributed::<T>, (&instrumentation, &slots), distributed),
    ensures
        slot == instrumentation.slot(),
        slot < 64,
        distributed <==> slots.distributed == Some(slot),
{
}

/// Setting, enabling and disabling select for the slot of the instrumentation, each in its own
/// way.
pub proof fn lemma_selecting_is_for_the_slot_of_the_instrumentation(
    instrumentation: Instrumentation,
    set: &mut Registry,
    more: &mut Registry,
    less: &mut Registry,
    selectors: &[&str],
    set_resolved: Result<Selection, UnknownKeys>,
    more_resolved: Result<Selection, UnknownKeys>,
    less_resolved: Result<Selection, UnknownKeys>,
)
    requires
        call_ensures(Instrumentation::set_enabled, (&instrumentation, set, selectors), set_resolved),
        call_ensures(Instrumentation::enable, (&instrumentation, more, selectors), more_resolved),
        call_ensures(Instrumentation::disable, (&instrumentation, less, selectors), less_resolved),
    ensures
        selected_and_applied(
            old(set)@,
            final(set)@,
            selectors@,
            instrumentation.slot(),
            BitOp::Replace,
            set_resolved,
        ),
        selected_and_applied(
            old(more)@,
            final(more)@,
            selectors@,
            instrumentation.slot(),
            BitOp::Add,
            more_resolved,
        ),
        selected_and_applied(
            old(less)@,
            final(less)@,
            selectors@,
            instrumentation.slot(),
            BitOp::Remove,
            less_resolved,
        ),
{
}

/// Enabling and disabling everything, building and ending: each goes by the slot of the
/// instrumentation.
pub proof fn lemma_building_and_ending<T>(
    builder: InstrumentationBuilder<T>,
    instrumentation: Instrumentation,
    slots: &mut Slots<T>,
    built: Result<Instrumentation, BuildError>,
    on: &mut Registry,
    off: &mut Registry,
    registry: &mut Registry,
    last: &mut Slots<T>,
)
    requires
        builder.tracer is Some,
        call_ensures(InstrumentationBuilder::<T>::build, (builder, slots), built),
        call_ensures(Instrumentation::enable_all, (&instrumentation, on), ()),
        call_ensures(Instrumentation::disable_all, (&instrumentation, off), ()),
        call_ensures(Instrumentation::release::<T>, (instrumentation, registry, last), ()),
    ensures
        registered(
            *old(slots),
            *final(slots),
            builder.tracer->0,
            builder.distributed,
            match built {
                Ok(made) => Ok(made.slot()),
                Err(error) => Err(error),
            },
        ),
        final(on)@ == all_enabled(old(on)@, instrumentation.slot()),
        final(off)@ == all_disabled(old(off)@, instrumentation.slot()),
        final(registry)@ == all_disabled(old(registry)@, instrumentation.slot()),
        released(*old(last), *final(last), instrumentation.slot()),
{
}

/// The keys that an instrumentation lists are the names of the sites that its slot is on for,
/// sorted and each once.
pub proof fn lemma_an_instrumentation_lists_what_it_traces(
    instrumentation: Instrumentation,
    registry: Registry,
    names: Vec<&'static str>,
    key: Seq<char>,
)
    requires
        call_ensures(Instrumentation::enabled_names, (&instrumentation, &registry), names),
    ensures
        texts(names@).contains(key) <==> exists|i: int|
            0 <= i < registry@.len() && (#[trigger] registry@[i]).name == key
                && registry@[i].enabled.contains(instrumentation.slot()),
        forall|i: int, j: int|
            0 <= i < j < names@.len() ==> precedes(
                (#[trigger] names@[i])@,
                (#[trigger] names@[j])@,
            ),
{
    let list = enabled_keys(registry@, instrumentation.slot());
    lemma_what_is_listed_as_enabled(registry@, instrumentation.slot(), key);
    assert forall|i: int, j: int| 0 <= i < j < names@.len() implies precedes(
        (#[trigger] names@[i])@,
        (#[trigger] names@[j])@,
    ) by {
        assert(texts(names@)[i] == names@[i]@ && texts(names@)[j] == names@[j]@);
        assert(precedes(list[i], list[j]));
    }
}

/// What is set on a builder is kept, and setting one thing changes no other.
pub proof fn lemma_builders_keep_what_is_set<T>(
    fresh: InstrumentationBuilder<T>,
    builder: InstrumentationBuilder<T>,
    name: String,
    tracer: T,
    named: InstrumentationBuilder<T>,
    traced: InstrumentationBuilder<T>,
    spread: InstrumentationBuilder<T>,
)
    requires
        call_ensures(Instrumentation::builder::<T>, (), fresh),
        call_ensures(InstrumentationBuilder::<T>::name, (builder, name), named),
        call_ensures(InstrumentationBuilder::<T>::tracer, (builder, tracer), traced),
        call_ensures(InstrumentationBuilder::<T>::distributed, (builder,), spread),
    ensures
        fresh.name is None && fresh.tracer is None && !fresh.distributed,
        named.name == Some(name) && named.tracer == builder.tracer && named.distributed
            == builder.distributed,
        traced.name == builder.name && traced.tracer == Some(tracer) && traced.distributed
            == builder.distributed,
        spread.name == builder.name && spread.tracer == builder.tracer && spread.distributed,
{
}

} // verus!
