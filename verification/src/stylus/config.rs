//! Turns functions on and off for the default instrumentation.
use vstd::prelude::*;

pub use crate::stylus::codec::{decode, encode, DecodeError};

use crate::instrumentation::helpers::{lemma_sites_with_a_slot, site_after, sites_after,
    sites_with, update_all, BitOp, SiteMask};
use crate::keys::{key_list, texts};
use crate::registry::{site_names, Registry, SiteView};
use crate::stylus::catalog;
use crate::stylus::sites::{apply_encoded, apply_names, encoded_and_applied, first_is_enabled,
    slot_child_only_names, slot_enabled_names, slot_is_enabled};
use crate::stylus::slots::DEFAULT_SLOT;

verus! {

/// Makes the functions with these names the ones that are traced.
pub fn set_enabled(registry: &mut Registry, names: &[&str])
    ensures
        final(registry)@ == sites_after(
            old(registry)@,
            texts(names@).to_set(),
            SiteMask::Enabled,
            DEFAULT_SLOT,
            BitOp::Replace,
        ),
{
    apply_names(registry, names, SiteMask::Enabled, DEFAULT_SLOT, BitOp::Replace);
}

/// Enables the functions with these names and leaves the others as they are.
pub fn enable(registry: &mut Registry, names: &[&str])
    ensures
        final(registry)@ == sites_after(
            old(registry)@,
            texts(names@).to_set(),
            SiteMask::Enabled,
            DEFAULT_SLOT,
            BitOp::Add,
        ),
{
    apply_names(registry, names, SiteMask::Enabled, DEFAULT_SLOT, BitOp::Add);
}

/// Disables the functions with these names and leaves the others as they are.
pub fn disable(registry: &mut Registry, names: &[&str])
    ensures
        final(registry)@ == sites_after(
            old(registry)@,
            texts(names@).to_set(),
            SiteMask::Enabled,
            DEFAULT_SLOT,
            BitOp::Remove,
        ),
{
    apply_names(registry, names, SiteMask::Enabled, DEFAULT_SLOT, BitOp::Remove);
}

/// Enables every function.
pub fn enable_all(registry: &mut Registry)
    ensures
        final(registry)@ == old(registry)@.map_values(
            |site: SiteView| site_after(site, SiteMask::Enabled, DEFAULT_SLOT, BitOp::Add, true),
        ),
{
    update_all(registry, SiteMask::Enabled, DEFAULT_SLOT, BitOp::Add);
}

/// Disables every function.
pub fn disable_all(registry: &mut Registry)
    ensures
        final(registry)@ == old(registry)@.map_values(
            |site: SiteView| site_after(site, SiteMask::Enabled, DEFAULT_SLOT, BitOp::Remove, true),
        ),
{
    update_all(registry, SiteMask::Enabled, DEFAULT_SLOT, BitOp::Remove);
}

/// Whether a function is enabled.
#[must_use]
pub fn is_enabled(registry: &Registry, name: &str) -> (enabled: bool)
    ensures
        enabled == first_is_enabled(registry@, name@, DEFAULT_SLOT),
{
    slot_is_enabled(registry, name, DEFAULT_SLOT)
}

/// The name of every site, in the order of the registry.
pub fn all_names(registry: &Registry) -> (names: Vec<&'static str>)
    ensures
        texts(names@) == site_names(registry@),
{
    catalog::all_names(registry)
}

/// The names of the enabled sites, one per site.
pub fn enabled_names(registry: &Registry) -> (names: Vec<&'static str>)
    ensures
        texts(names@) == site_names(sites_with(registry@, SiteMask::Enabled, DEFAULT_SLOT)),
{
    slot_enabled_names(registry, DEFAULT_SLOT)
}

/// Makes the functions with the ids that a text lists the ones that are traced.
///
/// # Errors
///
/// As [`decode`]. Then nothing changes.
pub fn set_enabled_encoded(registry: &mut Registry, text: &str) -> (applied: Result<
    (),
    DecodeError,
>)
    ensures
        encoded_and_applied(
            old(registry)@,
            final(registry)@,
            old(registry).keys(),
            text@,
            SiteMask::Enabled,
            DEFAULT_SLOT,
            BitOp::Replace,
            applied,
        ),
{
    apply_encoded(registry, text, SiteMask::Enabled, DEFAULT_SLOT, BitOp::Replace)
}

/// Enables the functions with the ids that a text lists.
///
/// # Errors
///
/// As [`decode`]. Then nothing changes.
pub fn enable_encoded(registry: &mut Registry, text: &str) -> (applied: Result<(), DecodeError>)
    ensures
        encoded_and_applied(
            old(registry)@,
            final(registry)@,
            old(registry).keys(),
            text@,
            SiteMask::Enabled,
            DEFAULT_SLOT,
            BitOp::Add,
            applied,
        ),
{
    apply_encoded(registry, text, SiteMask::Enabled, DEFAULT_SLOT, BitOp::Add)
}

/// Disables the functions with the ids that a text lists.
///
/// # Errors
///
/// As [`decode`]. Then nothing changes.
pub fn disable_encoded(registry: &mut Registry, text: &str) -> (applied: Result<(), DecodeError>)
    ensures
        encoded_and_applied(
            old(registry)@,
            final(registry)@,
            old(registry).keys(),
            text@,
            SiteMask::Enabled,
            DEFAULT_SLOT,
            BitOp::Remove,
            applied,
        ),
{
    apply_encoded(registry, text, SiteMask::Enabled, DEFAULT_SLOT, BitOp::Remove)
}

/// Makes the functions with these names the child-only ones: they get a span only
/// under a recording span.
pub fn set_child_only(registry: &mut Registry, names: &[&str])
    ensures
        final(registry)@ == sites_after(
            old(registry)@,
            texts(names@).to_set(),
            SiteMask::ChildOnly,
            DEFAULT_SLOT,
            BitOp::Replace,
        ),
{
    apply_names(registry, names, SiteMask::ChildOnly, DEFAULT_SLOT, BitOp::Replace);
}

/// Makes the functions with the ids that a text lists the child-only ones.
///
/// # Errors
///
/// As [`decode`]. Then nothing changes.
pub fn set_child_only_encoded(registry: &mut Registry, text: &str) -> (applied: Result<
    (),
    DecodeError,
>)
    ensures
        encoded_and_applied(
            old(registry)@,
            final(registry)@,
            old(registry).keys(),
            text@,
            SiteMask::ChildOnly,
            DEFAULT_SLOT,
            BitOp::Replace,
            applied,
        ),
{
    apply_encoded(registry, text, SiteMask::ChildOnly, DEFAULT_SLOT, BitOp::Replace)
}

/// The names of the child-only sites, one per site.
pub fn child_only_names(registry: &Registry) -> (names: Vec<&'static str>)
    ensures
        texts(names@) == site_names(sites_with(registry@, SiteMask::ChildOnly, DEFAULT_SLOT)),
{
    slot_child_only_names(registry, DEFAULT_SLOT)
}

/// What is told of the default instrumentation is told of the first slot.
pub proof fn lemma_the_default_instrumentation_tells_of_the_first_slot(
    registry: Registry,
    name: &str,
    all: Vec<&'static str>,
    enabled: Vec<&'static str>,
    child_only: Vec<&'static str>,
    is_on: bool,
)
    requires
        call_ensures(all_names, (&registry,), all),
        call_ensures(enabled_names, (&registry,), enabled),
        call_ensures(child_only_names, (&registry,), child_only),
        call_ensures(is_enabled, (&registry, name), is_on),
    ensures
        texts(all@) == registry@.map_values(|s: SiteView| s.name),
        texts(enabled@) == registry@.filter(|s: SiteView| s.enabled.contains(0)).map_values(
            |s: SiteView| s.name,
        ),
        texts(child_only@) == registry@.filter(
            |s: SiteView| s.child_only.contains(0),
        ).map_values(|s: SiteView| s.name),
        is_on <==> first_is_enabled(registry@, name@, 0),
{
    let any = SiteView { name: Seq::empty(), enabled: Set::empty(), child_only: Set::empty() };
    lemma_sites_with_a_slot(registry@, any, 0);
    assert(texts(all@) =~= registry@.map_values(|s: SiteView| s.name));
    assert(texts(enabled@) =~= registry@.filter(
        |s: SiteView| s.enabled.contains(0),
    ).map_values(|s: SiteView| s.name));
    assert(texts(child_only@) =~= registry@.filter(
        |s: SiteView| s.child_only.contains(0),
    ).map_values(|s: SiteView| s.name));
}

/// What turning functions on and off by name does for the default instrumentation: setting turns
/// on those named and no others, enabling those too, disabling turns those off. All else stays.
pub proof fn lemma_what_turning_functions_on_and_off_does(
    set: &mut Registry,
    more: &mut Registry,
    less: &mut Registry,
    names: &[&str],
    i: int,
    other: u8,
)
    requires
        call_ensures(set_enabled, (set, names), ()),
        call_ensures(enable, (more, names), ()),
        call_ensures(disable, (less, names), ()),
        0 <= i < old(set)@.len(),
        0 <= i < old(more)@.len(),
        0 <= i < old(less)@.len(),
    ensures
        final(set)@.len() == old(set)@.len(),
        final(set)@[i].name == old(set)@[i].name,
        final(set)@[i].child_only == old(set)@[i].child_only,
        other != 0 ==> (final(set)@[i].enabled.contains(other)
            <==> old(set)@[i].enabled.contains(other)),
        final(set)@[i].enabled.contains(0) <==> texts(names@).contains(old(set)@[i].name),
        final(more)@.len() == old(more)@.len(),
        final(more)@[i].name == old(more)@[i].name,
        final(more)@[i].child_only == old(more)@[i].child_only,
        other != 0 ==> (final(more)@[i].enabled.contains(other)
            <==> old(more)@[i].enabled.contains(other)),
        final(more)@[i].enabled.contains(0) <==> old(more)@[i].enabled.contains(0)
            || texts(names@).contains(old(more)@[i].name),
        final(less)@.len() == old(less)@.len(),
        final(less)@[i].name == old(less)@[i].name,
        final(less)@[i].child_only == old(less)@[i].child_only,
        other != 0 ==> (final(less)@[i].enabled.contains(other)
            <==> old(less)@[i].enabled.contains(other)),
        final(less)@[i].enabled.contains(0) <==> old(less)@[i].enabled.contains(0)
            && !texts(names@).contains(old(less)@[i].name),
{
}

/// What making functions child-only by name does: those named are child-only and no others.
/// All else stays.
pub proof fn lemma_what_child_only_by_name_does(
    set: &mut Registry,
    names: &[&str],
    i: int,
    other: u8,
)
    requires
        call_ensures(set_child_only, (set, names), ()),
        0 <= i < old(set)@.len(),
    ensures
        final(set)@.len() == old(set)@.len(),
        final(set)@[i].name == old(set)@[i].name,
        final(set)@[i].enabled == old(set)@[i].enabled,
        other != 0 ==> (final(set)@[i].child_only.contains(other)
            <==> old(set)@[i].child_only.contains(other)),
        final(set)@[i].child_only.contains(0) <==> texts(names@).contains(old(set)@[i].name),
{
}

/// Enabling everything turns every function on for the default instrumentation, disabling
/// everything turns every one off, and nothing else changes.
pub proof fn lemma_what_enabling_and_disabling_everything_does(
    on: &mut Registry,
    off: &mut Registry,
    i: int,
    other: u8,
)
    requires
        call_ensures(enable_all, (on,), ()),
        call_ensures(disable_all, (off,), ()),
        0 <= i < old(on)@.len(),
        0 <= i < old(off)@.len(),
    ensures
        final(on)@.len() == old(on)@.len(),
        final(on)@[i].name == old(on)@[i].name,
        final(on)@[i].child_only == old(on)@[i].child_only,
        other != 0 ==> (final(on)@[i].enabled.contains(other)
            <==> old(on)@[i].enabled.contains(other)),
        final(on)@[i].enabled.contains(0),
        final(off)@.len() == old(off)@.len(),
        final(off)@[i].name == old(off)@[i].name,
        final(off)@[i].child_only == old(off)@[i].child_only,
        other != 0 ==> (final(off)@[i].enabled.contains(other)
            <==> old(off)@[i].enabled.contains(other)),
        !final(off)@[i].enabled.contains(0),
{
}

/// An encoded list does what the ids in it say, in the way that the operation is meant to: by
/// the keys that the registry has, to the enabled functions of the default instrumentation
/// or to its child-only ones.
pub proof fn lemma_encoded_lists_go_by_the_keys_of_the_registry(
    set: &mut Registry,
    more: &mut Registry,
    less: &mut Registry,
    child: &mut Registry,
    text: &str,
    set_applied: Result<(), DecodeError>,
    more_applied: Result<(), DecodeError>,
    less_applied: Result<(), DecodeError>,
    child_applied: Result<(), DecodeError>,
)
    requires
        call_ensures(set_enabled_encoded, (set, text), set_applied),
        call_ensures(enable_encoded, (more, text), more_applied),
        call_ensures(disable_encoded, (less, text), less_applied),
        call_ensures(set_child_only_encoded, (child, text), child_applied),
    ensures
        encoded_and_applied(
            old(set)@,
            final(set)@,
            key_list(site_names(old(set)@)),
            text@,
            SiteMask::Enabled,
            0,
            BitOp::Replace,
            set_applied,
        ),
        encoded_and_applied(
            old(more)@,
            final(more)@,
            key_list(site_names(old(more)@)),
            text@,
            SiteMask::Enabled,
            0,
            BitOp::Add,
            more_applied,
        ),
        encoded_and_applied(
            old(less)@,
            final(less)@,
            key_list(site_names(old(less)@)),
            text@,
            SiteMask::Enabled,
            0,
            BitOp::Remove,
            less_applied,
        ),
        encoded_and_applied(
            old(child)@,
            final(child)@,
            key_list(site_names(old(child)@)),
            text@,
            SiteMask::ChildOnly,
            0,
            BitOp::Replace,
            child_applied,
        ),
{
}

} // verus!
