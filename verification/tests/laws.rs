//! What holds of the library as a whole, on concrete values.

use opentelemetry_traceable::instrumentation::helpers::{names_with, BitOp, SiteMask};
use opentelemetry_traceable::instrumentation::slots::Slots;
use opentelemetry_traceable::instrumentation::{BuildError, Instrumentation};
use opentelemetry_traceable::mask::{bit, split_lowest, MAX_INSTRUMENTATIONS};
use opentelemetry_traceable::registry::{
    id_of_name, keys, name_by_id, names_by_id, sites_by_id, Registry, TraceSite,
};
use opentelemetry_traceable::selector::{self, Selection};
use opentelemetry_traceable::stylus::catalog::catalog;
use opentelemetry_traceable::stylus::codec;
use opentelemetry_traceable::stylus::config;
use opentelemetry_traceable::stylus::instrumentation::{
    Instrumentation as Named, SlotTable, DEFAULT_SLOT,
};
use opentelemetry_traceable::stylus::sites::apply_blob;
use opentelemetry_traceable::stylus::spans::may_start;
use opentelemetry_traceable::stylus::subset::{self, Size};
use opentelemetry_traceable::text::{decimal_text, is_white_space, key_order, trim, KeyOrder};

const NAMES: [&str; 5] = ["b::two", "a::one", "c", "b::two", "a::zero"];

fn registry() -> Registry {
    Registry::new(NAMES.iter().map(|name| TraceSite::new(name)).collect())
}

fn masks(registry: &Registry) -> Vec<(u64, u64)> {
    registry.sites.iter().map(|site| (site.enabled_mask, site.child_only_mask)).collect()
}

fn build(slots: &mut Slots<u8>) -> Result<Instrumentation, BuildError> {
    Instrumentation::builder().tracer(7).build(slots)
}

// Text.

#[test]
fn white_space_is_what_the_standard_library_says() {
    for c in '\0'..=char::MAX {
        assert_eq!(is_white_space(c), c.is_whitespace(), "{c:?}");
    }
}

#[test]
fn trimming_takes_the_white_space_off_both_ends() {
    for text in ["", "  ", "a", " a b\u{a0}", "\u{3000}x", "é \n"] {
        assert_eq!(trim(text), text.trim());
    }
}

#[test]
fn keys_are_ordered_as_strings_are() {
    let texts = ["", "a", "aa", "ab", "b", "é", "\u{10000}", "\u{ffff}", "a::b", "a:b"];
    for a in texts {
        for b in texts {
            let expected = if a < b {
                KeyOrder::Before
            } else if a == b {
                KeyOrder::Same
            } else {
                KeyOrder::After
            };
            assert!(key_order(a, b) == expected, "{a:?} {b:?}");
        }
    }
}

#[test]
fn numbers_are_written_in_decimal() {
    for value in [0, 1, 9, 10, 101, 4096, 1234567890, usize::MAX] {
        assert_eq!(decimal_text(value), value.to_string());
    }
}

// Patterns.

#[test]
fn a_literal_matches_itself_and_nothing_else() {
    assert!(selector::matches("a::one", "a::one"));
    assert!(!selector::matches("a::one", "a::on"));
    assert!(!selector::matches("a::one", "a::one "));
}

#[test]
fn a_star_matches_everything_and_two_match_no_more() {
    for key in ["", "x", "a::b::c", "**"] {
        assert!(selector::matches("*", key));
        assert!(selector::matches("**", key));
    }
    for key in ["ab", "aXXb", "a", "b", "ba"] {
        assert_eq!(selector::matches("a*b", key), selector::matches("a**b", key), "{key}");
    }
}

#[test]
fn patterns_can_take_many_literals_in_their_order() {
    assert!(selector::matches("a*b*c*d", "a1b2c3d"));
    assert!(!selector::matches("a*b*c*d", "a1c2b3d"));
    assert!(selector::matches("*ba*ab*", "xbaabx"));
    assert!(!selector::matches("*ba*ab*", "xbabx"));
}

// Masks.

#[test]
fn a_mask_is_the_set_of_its_slots() {
    let mut mask = bit(0) | bit(5) | bit(63);
    let mut slots = vec![];
    while mask != 0 {
        let (slot, rest) = split_lowest(mask);
        slots.push(slot);
        mask = rest;
    }
    assert_eq!(slots, vec![0, 5, 63]);
}

// The registry.

#[test]
fn ids_and_keys_name_each_other() {
    let registry = registry();
    let names = names_by_id(&registry);
    assert_eq!(names, vec!["a::one", "a::zero", "b::two", "c"]);
    for (id, name) in names.iter().enumerate() {
        assert_eq!(id_of_name(&registry, name), Some(id as u64));
        assert_eq!(name_by_id(&registry, id as u64), Some(*name));
    }
    assert_eq!(id_of_name(&registry, "b"), None);
    assert_eq!(name_by_id(&registry, 4), None);
    assert_eq!(name_by_id(&registry, u64::MAX), None);
}

#[test]
fn ids_do_not_depend_on_the_order_of_the_sites() {
    let mut sites: Vec<TraceSite> = NAMES.iter().map(|name| TraceSite::new(name)).collect();
    sites.reverse();
    assert_eq!(names_by_id(&Registry::new(sites)), names_by_id(&registry()));
}

#[test]
fn a_new_key_renumbers_the_ids_behind_it() {
    let mut sites: Vec<TraceSite> = NAMES.iter().map(|name| TraceSite::new(name)).collect();
    sites.push(TraceSite::new("b::one"));
    assert_eq!(
        names_by_id(&Registry::new(sites)),
        vec!["a::one", "a::zero", "b::one", "b::two", "c"]
    );
}

#[test]
fn sites_with_the_same_key_share_an_id() {
    assert_eq!(sites_by_id(&registry()), vec![vec![1], vec![4], vec![0, 3], vec![2]]);
}

#[test]
fn the_catalog_is_dense() {
    let catalog = catalog(&registry());
    let listed: Vec<(&str, u64)> = catalog.functions.iter().map(|f| (f.name, f.id)).collect();
    assert_eq!(listed, vec![("a::one", 0), ("a::zero", 1), ("b::two", 2), ("c", 3)]);
}

// Masks of sites.

#[test]
fn instrumentations_are_isolated_from_each_other() {
    let mut registry = registry();
    let mut slots = Slots::default();
    let a = build(&mut slots).unwrap();
    let b = build(&mut slots).unwrap();
    b.enable_all(&mut registry);
    a.set_enabled(&mut registry, &["a::*"]).unwrap();
    a.disable(&mut registry, &["*"]).unwrap();
    assert_eq!(a.enabled_names(&registry), Vec::<&str>::new());
    assert_eq!(b.enabled_names(&registry), keys(&registry));
    assert_eq!(masks(&registry), vec![(2, 0); 5]);
}

#[test]
fn a_replacement_is_exact_and_leaves_nothing_stale() {
    let mut registry = registry();
    let mut slots = Slots::default();
    let a = build(&mut slots).unwrap();
    a.enable_all(&mut registry);
    let selection = a.set_enabled(&mut registry, &[" b::* ", "c", "none*"]).unwrap();
    assert_eq!(selection.keys, vec!["b::two", "c"]);
    assert_eq!(selection.unmatched_patterns, vec!["none*"]);
    assert_eq!(a.enabled_names(&registry), selection.keys);
    assert_eq!(masks(&registry), vec![(1, 0), (0, 0), (1, 0), (1, 0), (0, 0)]);
}

#[test]
fn disabling_undoes_enabling_and_twice_is_once() {
    let mut registry = registry();
    let mut slots = Slots::default();
    let a = build(&mut slots).unwrap();
    let before = masks(&registry);
    a.enable(&mut registry, &["a::one", "b::two"]).unwrap();
    let once = masks(&registry);
    a.enable(&mut registry, &["a::one", "b::two"]).unwrap();
    assert_eq!(masks(&registry), once);
    a.disable(&mut registry, &["a::one", "b::two"]).unwrap();
    assert_eq!(masks(&registry), before);
}

#[test]
fn updates_of_two_instrumentations_commute() {
    let mut slots = Slots::default();
    let a = build(&mut slots).unwrap();
    let b = build(&mut slots).unwrap();
    let mut first = registry();
    a.set_enabled(&mut first, &["a::*"]).unwrap();
    b.enable(&mut first, &["*::two"]).unwrap();
    let mut second = registry();
    b.enable(&mut second, &["*::two"]).unwrap();
    a.set_enabled(&mut second, &["a::*"]).unwrap();
    assert_eq!(masks(&first), masks(&second));
}

#[test]
fn enabling_unites_and_disabling_subtracts() {
    let mut registry = registry();
    let mut slots = Slots::default();
    let (x, y) = (build(&mut slots).unwrap(), build(&mut slots).unwrap());
    y.set_enabled(&mut registry, &["c"]).unwrap();
    x.enable(&mut registry, &["b::*"]).unwrap();
    assert_eq!(x.enabled_names(&registry), vec!["b::two"]);
    x.enable(&mut registry, &["a::zero", "b::two"]).unwrap();
    assert_eq!(x.enabled_names(&registry), vec!["a::zero", "b::two"]);
    x.disable(&mut registry, &["b::two", "c"]).unwrap();
    assert_eq!(x.enabled_names(&registry), vec!["a::zero"]);
    assert_eq!(y.enabled_names(&registry), vec!["c"]);
}

#[test]
fn the_listing_of_another_instrumentation_stays() {
    let mut registry = registry();
    let mut slots = Slots::default();
    let (x, y) = (build(&mut slots).unwrap(), build(&mut slots).unwrap());
    y.set_enabled(&mut registry, &["a::*"]).unwrap();
    let listed = y.enabled_names(&registry);
    x.set_enabled(&mut registry, &["a::one"]).unwrap();
    assert_eq!(y.enabled_names(&registry), listed);
    assert!(x.enable(&mut registry, &["nowhere"]).is_err());
    assert_eq!(y.enabled_names(&registry), listed);
    x.enable_all(&mut registry);
    assert_eq!(x.enabled_names(&registry), keys(&registry));
    assert_eq!(y.enabled_names(&registry), listed);
    x.disable_all(&mut registry);
    assert!(x.enabled_names(&registry).is_empty());
    assert_eq!(y.enabled_names(&registry), listed);
    x.release(&mut registry, &mut slots);
    assert_eq!(y.enabled_names(&registry), vec!["a::one", "a::zero"]);
}

#[test]
fn order_repeats_and_blanks_of_selectors_make_no_difference() {
    let registry = registry();
    let a = selector::resolve(&registry, &["c", "a::*", "z*"]).unwrap();
    let b = selector::resolve(&registry, &[" a::* ", "", "z*", "c", "\t", "a::*", "z*"]).unwrap();
    assert_eq!(a.keys, vec!["a::one", "a::zero", "c"]);
    assert_eq!(b.keys, a.keys);
    assert_eq!(a.unmatched_patterns, vec!["z*"]);
    assert_eq!(b.unmatched_patterns, vec!["z*", "z*"]);
    let a = selector::resolve(&registry, &["nope", "c"]).unwrap_err();
    let b = selector::resolve(&registry, &["", "c", "nope", " nope"]).unwrap_err();
    assert_eq!(a.keys, vec!["nope"]);
    assert_eq!(b.keys, vec!["nope", "nope"]);
}

#[test]
fn a_function_is_enabled_exactly_if_it_is_listed() {
    let mut registry = registry();
    let mut table = SlotTable::default();
    let named = Named::builder().tracer(7u8).build(&mut table).unwrap();
    config::enable_all(&mut registry);
    config::disable(&mut registry, &["c", "a::one"]);
    named.enable(&mut registry, &["b::two", "c"]);
    for name in ["a::one", "a::zero", "b::two", "c", "nowhere"] {
        let listed = config::enabled_names(&registry).contains(&name);
        assert_eq!(config::is_enabled(&registry, name), listed, "{name}");
        let listed = named.enabled_names(&registry).contains(&name);
        assert_eq!(named.is_enabled(&registry, name), listed, "{name}");
    }
    assert_eq!(config::enabled_names(&registry), vec!["b::two", "b::two", "a::zero"]);
    let before = config::enabled_names(&registry);
    named.release(&mut registry, &mut table);
    assert_eq!(config::enabled_names(&registry), before);
}

#[test]
fn a_refused_selection_changes_nothing() {
    let mut registry = registry();
    let mut slots = Slots::default();
    let a = build(&mut slots).unwrap();
    a.enable(&mut registry, &["c"]).unwrap();
    let before = masks(&registry);
    for refused in [
        a.enable(&mut registry, &["a::one", "typo"]),
        a.disable(&mut registry, &["c", "typo"]),
        a.set_enabled(&mut registry, &["*", "typo"]),
    ] {
        let unknown = refused.unwrap_err();
        assert_eq!(unknown.keys, vec!["typo"]);
        assert_eq!(unknown.message(), "unknown #[traceable] key(s): typo");
    }
    assert_eq!(masks(&registry), before);
}

#[test]
fn an_empty_selection_is_the_default_one() {
    let selection = Selection::default();
    assert!(selection.keys.is_empty());
    assert!(selection.unmatched_patterns.is_empty());
}

// Slots.

#[test]
fn slots_run_out_when_all_are_live_and_come_back_in_turn() {
    let mut slots = Slots::default();
    let mut live = vec![];
    for slot in 0..MAX_INSTRUMENTATIONS {
        let one = build(&mut slots).unwrap();
        assert_eq!(u32::from(one.slot_number()), slot);
        live.push(one);
    }
    let refused = build(&mut slots).unwrap_err();
    assert_eq!(refused, BuildError::SlotsExhausted);
    assert_eq!(refused.message(), "no free instrumentation slot (64 reached)");

    let mut registry = registry();
    live.remove(9).release(&mut registry, &mut slots);
    live.remove(3).release(&mut registry, &mut slots);
    assert_eq!(build(&mut slots).unwrap().slot_number(), 3);
    assert_eq!(build(&mut slots).unwrap().slot_number(), 9);
    assert_eq!(build(&mut slots).unwrap_err(), BuildError::SlotsExhausted);
}

#[test]
fn a_released_slot_passes_nothing_on() {
    let mut registry = registry();
    let mut slots = Slots::default();
    let first = build(&mut slots).unwrap();
    first.enable_all(&mut registry);
    let slot = first.slot_number();
    first.release(&mut registry, &mut slots);
    let second = build(&mut slots).unwrap();
    assert_eq!(second.slot_number(), slot);
    assert!(second.enabled_names(&registry).is_empty());
}

#[test]
fn one_instrumentation_at_a_time_is_distributed() {
    let mut registry = registry();
    let mut slots = Slots::default();
    let first = Instrumentation::builder().tracer(1).distributed().build(&mut slots).unwrap();
    assert!(first.is_distributed(&slots));
    let refused = Instrumentation::builder().tracer(2).distributed().build(&mut slots).unwrap_err();
    assert_eq!(refused, BuildError::DistributedAlreadyLive);
    assert_eq!(refused.message(), "a distributed instrumentation is already configured");
    let other = build(&mut slots).unwrap();
    assert!(!other.is_distributed(&slots));
    first.release(&mut registry, &mut slots);
    let second = Instrumentation::builder().tracer(3).distributed().build(&mut slots).unwrap();
    assert!(second.is_distributed(&slots));
}

#[test]
fn the_role_is_refused_before_slots_are_counted() {
    let mut slots = Slots::default();
    let _first = Instrumentation::builder().tracer(1).distributed().build(&mut slots).unwrap();
    for _ in 1..MAX_INSTRUMENTATIONS {
        build(&mut slots).unwrap();
    }
    let refused = Instrumentation::builder().tracer(2).distributed().build(&mut slots).unwrap_err();
    assert_eq!(refused, BuildError::DistributedAlreadyLive);
}

#[test]
fn named_slots_are_never_handed_out_twice() {
    let mut registry = registry();
    let mut table: SlotTable<u8> = SlotTable::default();
    for slot in 1..MAX_INSTRUMENTATIONS {
        let one = Named::builder().tracer(1).build(&mut table).unwrap();
        assert_eq!(u32::from(one.slot_number()), slot);
        assert!(one.enabled_names(&registry).is_empty());
        assert!(one.child_only_names(&registry).is_empty());
        assert_ne!(one.slot_number(), DEFAULT_SLOT);
        one.enable_all(&mut registry);
        one.set_child_only(&mut registry, &["c"]);
        one.release(&mut registry, &mut table);
    }
    assert_eq!(masks(&registry), vec![(0, 0); 5]);
    let refused = Named::builder().tracer(1).build(&mut table).unwrap_err();
    assert_eq!(
        refused.message(),
        "no free instrumentation slot (64 created over this process's lifetime)"
    );
}

// Named and default instrumentations.

#[test]
fn named_instrumentations_own_their_bits() {
    let mut registry = registry();
    let mut table: SlotTable<u8> = SlotTable::default();
    let one = Named::builder().name("one".to_string()).tracer(1).build(&mut table).unwrap();
    config::enable(&mut registry, &["a::one"]);
    one.enable(&mut registry, &["b::two", "unheard of"]);
    one.enable_child_only(&mut registry, &["c", "b::two"]);
    one.disable_child_only(&mut registry, &["c"]);
    assert_eq!(masks(&registry), vec![(2, 2), (1, 0), (0, 0), (2, 2), (0, 0)]);
    assert!(one.is_enabled(&registry, "b::two"));
    assert!(!one.is_enabled(&registry, "a::one"));
    assert!(!one.is_enabled(&registry, "unheard of"));
    assert!(config::is_enabled(&registry, "a::one"));
    assert_eq!(one.enabled_names(&registry), vec!["b::two", "b::two"]);
    assert_eq!(one.child_only_names(&registry), vec!["b::two", "b::two"]);
    one.disable(&mut registry, &["b::two"]);
    one.enable_all(&mut registry);
    one.disable_all(&mut registry);
    one.set_enabled(&mut registry, &["c"]);
    assert_eq!(one.enabled_names(&registry), vec!["c"]);
    assert_eq!(names_with(&registry, SiteMask::Enabled, DEFAULT_SLOT), vec!["a::one"]);
}

#[test]
fn an_encoded_list_is_exact() {
    let mut registry = registry();
    let mut table: SlotTable<u8> = SlotTable::default();
    let one = Named::builder().tracer(1).build(&mut table).unwrap();
    one.enable_all(&mut registry);
    // The last id is that of no key.
    let text = codec::encode(&mut [2, 0, 2, 77]);
    one.set_enabled_encoded(&mut registry, &text).unwrap();
    assert_eq!(one.enabled_names(&registry), vec!["b::two", "a::one", "b::two"]);
    one.disable_encoded(&mut registry, &codec::encode(&mut [2])).unwrap();
    one.enable_encoded(&mut registry, &codec::encode(&mut [3])).unwrap();
    assert_eq!(one.enabled_names(&registry), vec!["a::one", "c"]);
    one.set_child_only_encoded(&mut registry, &codec::encode(&mut [1])).unwrap();
    assert_eq!(one.child_only_names(&registry), vec!["a::zero"]);
    config::set_child_only_encoded(&mut registry, &codec::encode(&mut [0])).unwrap();
    assert_eq!(config::child_only_names(&registry), vec!["a::one"]);

    let before = masks(&registry);
    for refused in [
        one.set_enabled_encoded(&mut registry, "?"),
        one.enable_encoded(&mut registry, "gA"),
        config::disable_encoded(&mut registry, "?"),
    ] {
        assert!(refused.is_err());
    }
    assert_eq!(masks(&registry), before);
}

#[test]
fn a_filter_enables_at_least_what_it_was_made_of() {
    let mut registry = registry();
    let blob = subset::encode(&["a::one", "c"], Size { m: 4096, k: 7 });
    apply_blob(&mut registry, &blob, SiteMask::Enabled, 4, BitOp::Replace).unwrap();
    assert_eq!(names_with(&registry, SiteMask::Enabled, 4), vec!["a::one", "c"]);
    apply_blob(&mut registry, &subset::encode_all(), SiteMask::ChildOnly, 4, BitOp::Add).unwrap();
    assert_eq!(names_with(&registry, SiteMask::ChildOnly, 4), NAMES.to_vec());
    apply_blob(&mut registry, &blob, SiteMask::Enabled, 4, BitOp::Remove).unwrap();
    assert_eq!(masks(&registry), vec![(0, 16); 5]);
    assert!(apply_blob(&mut registry, "?", SiteMask::Enabled, 4, BitOp::Add).is_err());
    assert_eq!(masks(&registry), vec![(0, 16); 5]);
}

#[test]
fn a_child_only_function_needs_a_recording_parent() {
    assert!(may_start(false, false));
    assert!(may_start(false, true));
    assert!(!may_start(true, false));
    assert!(may_start(true, true));
}
