//! Turning sites on and off for a slot, by name, by id and by filter.
use vstd::prelude::*;
use vstd::slice::slice_to_vec;
use vstd::utf8::encode_utf8;

use crate::instrumentation::helpers::{bit, lemma_listed, names_agree, names_with, sites_after,
    sites_with, slots_of, update_site, BitOp, SiteMask};
use crate::keys::{holds, is_key_list, key_list, lemma_key_list_exists, sorted_keys, texts};
use crate::mask::{has_slot, MAX_INSTRUMENTATIONS};
use crate::registry::{lemma_ids_name_keys, names_by_id, site_names, Registry, SiteView};
use crate::stylus::codec::{ascending, decode, decoded, encoded, lemma_decode_inverts_encode,
    DecodeError};
use crate::stylus::subset;
use crate::text::same_text;

verus! {

/// The keys with the given ids. Ids that no key has stand for nothing.
pub open spec fn keys_with_ids(keys: Seq<Seq<char>>, ids: Seq<u64>) -> Set<Seq<char>> {
    Set::new(
        |key: Seq<char>|
            exists|i: int|
                0 <= i < ids.len() && (#[trigger] ids[i]) < keys.len() && keys[ids[i] as int] == key,
    )
}

/// The names whose ids are found in a filter.
pub open spec fn names_in_filter(m: u32, k: u8, bits: Seq<u8>) -> Set<Seq<char>> {
    Set::new(
        |name: Seq<char>| subset::member(m, k, bits, subset::fnv1a(encode_utf8(name))),
    )
}

/// Updates the bit of a slot on the sites with the given names.
pub fn apply_names(registry: &mut Registry, names: &[&str], which: SiteMask, slot: u8, op: BitOp)
    requires
        slot < MAX_INSTRUMENTATIONS,
    ensures
        final(registry)@ == sites_after(
            old(registry)@,
            texts(names@).to_set(),
            which,
            slot,
            op,
        ),
{
    let wanted = sorted_keys(&slice_to_vec(names));
    proof {
        lemma_key_list_exists(texts(names@));
    }
    let ghost before = registry@;
    let ghost keys = texts(names@).to_set();
    let ghost after = sites_after(before, keys, which, slot, op);
    let mut i: usize = 0;
    while i < registry.sites.len()
        invariant
            i <= registry.sites@.len(),
            slot < MAX_INSTRUMENTATIONS,
            is_key_list(texts(wanted@), texts(names@)),
            keys == texts(names@).to_set(),
            after == sites_after(before, keys, which, slot, op),
            registry@ == after.take(i as int) + before.skip(i as int),
            before.len() == registry.sites@.len(),
        decreases registry.sites@.len() - i,
    {
        let hit = holds(&wanted, registry.sites[i].name);
        assert(registry@[i as int] == before[i as int]);
        assert(registry.sites@[i as int].name@ == before[i as int].name);
        update_site(registry, i, which, slot, op, hit);
        assert(registry@ =~= after.take(i + 1) + before.skip(i + 1));
        i = i + 1;
    }
    assert(registry@ =~= after);
}

/// Updates the bit of a slot on the sites whose keys have the given ids.
pub fn apply_ids(registry: &mut Registry, ids: &Vec<u64>, which: SiteMask, slot: u8, op: BitOp)
    requires
        slot < MAX_INSTRUMENTATIONS,
    ensures
        final(registry)@ == sites_after(
            old(registry)@,
            keys_with_ids(old(registry).keys(), ids@),
            which,
            slot,
            op,
        ),
{
    let keys = names_by_id(registry);
    let ghost all = registry.keys();
    let mut names: Vec<&str> = Vec::new();
    let count = ids.len();
    let known = keys.len();
    assert(texts(keys@).len() == known);
    let mut i: usize = 0;
    while i < count
        invariant
            i <= count,
            count == ids@.len(),
            known == keys@.len(),
            all == texts(keys@),
            texts(names@).to_set() == keys_with_ids(all, ids@.take(i as int)),
        decreases count - i,
    {
        let id = ids[i];
        let ghost before = texts(names@);
        let ghost seen = ids@.take(i as int);
        let ghost now = ids@.take(i + 1);
        assert(now =~= seen.push(id));
        if id < known as u64 {
            names.push(keys[id as usize]);
            proof {
                let key = all[id as int];
                assert(texts(names@) =~= before.push(key));
                assert(now[i as int] == id);
                assert forall|other: Seq<char>| #[trigger] texts(names@).to_set().contains(other)
                    <==> keys_with_ids(all, now).contains(other) by {
                    lemma_ids_of_more(all, seen, id, now, other);
                    if before.contains(other) {
                        let k = choose|k: int| 0 <= k < before.len() && before[k] == other;
                        assert(texts(names@)[k] == other);
                    }
                    if other == key {
                        assert(texts(names@)[before.len() as int] == other);
                    }
                    if texts(names@).contains(other) && other != key {
                        let k = choose|k: int| 0 <= k < texts(names@).len() && texts(names@)[k]
                            == other;
                        assert(before[k] == other);
                    }
                    assert(before.to_set().contains(other) == before.contains(other));
                }
                assert(texts(names@).to_set() =~= keys_with_ids(all, now));
            }
        } else {
            proof {
                assert forall|other: Seq<char>| #[trigger] keys_with_ids(all, seen).contains(other)
                    <==> keys_with_ids(all, now).contains(other) by {
                    lemma_ids_of_more(all, seen, id, now, other);
                }
                assert(keys_with_ids(all, seen) =~= keys_with_ids(all, now));
            }
        }
        i = i + 1;
    }
    assert(ids@.take(i as int) =~= ids@);
    apply_names(registry, names.as_slice(), which, slot, op);
}

proof fn lemma_ids_of_more(
    keys: Seq<Seq<char>>,
    seen: Seq<u64>,
    id: u64,
    now: Seq<u64>,
    key: Seq<char>,
)
    requires
        now == seen.push(id),
    ensures
        keys_with_ids(keys, now).contains(key) <==> (keys_with_ids(keys, seen).contains(key) || (id
            < keys.len() && keys[id as int] == key)),
{
    if keys_with_ids(keys, seen).contains(key) {
        let k = choose|k: int|
            0 <= k < seen.len() && (#[trigger] seen[k]) < keys.len() && keys[seen[k] as int] == key;
        assert(now[k] == seen[k]);
    }
    if id < keys.len() && keys[id as int] == key {
        assert(now[seen.len() as int] == id);
    }
    if keys_with_ids(keys, now).contains(key) {
        let k = choose|k: int|
            0 <= k < now.len() && (#[trigger] now[k]) < keys.len() && keys[now[k] as int] == key;
        if k < seen.len() {
            assert(seen[k] == now[k]);
        }
    }
}

/// An encoded list of ids is exact: after a replacement with it, a site is on for the
/// slot if and only if the id of its key is in the list.
pub proof fn lemma_encoded_list_is_exact(
    sites: Seq<SiteView>,
    ids: Seq<u64>,
    which: SiteMask,
    slot: u8,
    i: int,
    id: u64,
)
    requires
        ascending(ids),
        0 <= i < sites.len(),
        id < key_list(site_names(sites)).len(),
        key_list(site_names(sites))[id as int] == sites[i].name,
    ensures
        decoded(encoded(ids)) == Ok::<Seq<u64>, DecodeError>(ids),
        slots_of(
            sites_after(
                sites,
                keys_with_ids(key_list(site_names(sites)), ids),
                which,
                slot,
                BitOp::Replace,
            )[i],
            which,
        ).contains(slot) <==> ids.contains(id),
{
    lemma_decode_inverts_encode(ids);
    let keys = key_list(site_names(sites));
    let wanted = keys_with_ids(keys, ids);
    if wanted.contains(sites[i].name) {
        let k = choose|k: int|
            0 <= k < ids.len() && (#[trigger] ids[k]) < keys.len() && keys[ids[k] as int]
                == sites[i].name;
        lemma_ids_name_keys(site_names(sites), ids[k] as int, id as int);
        assert(ids[k] == id);
    }
    if ids.contains(id) {
        let k = choose|k: int| 0 <= k < ids.len() && ids[k] == id;
        assert(ids[k] < keys.len() && keys[ids[k] as int] == sites[i].name);
    }
}

/// What comes of applying an encoded list of ids: the sites with those ids are
/// updated, or the text is refused and nothing changes.
pub open spec fn encoded_and_applied(
    before: Seq<SiteView>,
    after: Seq<SiteView>,
    keys: Seq<Seq<char>>,
    text: Seq<char>,
    which: SiteMask,
    slot: u8,
    op: BitOp,
    applied: Result<(), DecodeError>,
) -> bool {
    match decoded(text) {
        Ok(ids) => {
            &&& applied == Ok::<(), DecodeError>(())
            &&& after == sites_after(before, keys_with_ids(keys, ids), which, slot, op)
        },
        Err(error) => {
            &&& applied == Err::<(), DecodeError>(error)
            &&& after == before
        },
    }
}

/// Updates the bit of a slot on the sites whose ids a text lists.
///
/// # Errors
///
/// As [`decode`]. Then nothing changes.
pub fn apply_encoded(
    registry: &mut Registry,
    text: &str,
    which: SiteMask,
    slot: u8,
    op: BitOp,
) -> (applied: Result<(), DecodeError>)
    requires
        slot < MAX_INSTRUMENTATIONS,
    ensures
        encoded_and_applied(
            old(registry)@,
            final(registry)@,
            old(registry).keys(),
            text@,
            which,
            slot,
            op,
            applied,
        ),
{
    match decode(text) {
        Ok(ids) => {
            apply_ids(registry, &ids, which, slot, op);
            Ok(())
        },
        Err(error) => Err(error),
    }
}

/// Updates the bit of a slot on the sites that are found in a filter.
///
/// # Errors
///
/// As [`subset::decode`]. Then nothing changes.
pub fn apply_blob(
    registry: &mut Registry,
    blob: &str,
    which: SiteMask,
    slot: u8,
    op: BitOp,
) -> (applied: Result<(), subset::DecodeError>)
    requires
        slot < MAX_INSTRUMENTATIONS,
    ensures
        match subset::decoded(blob@) {
            Ok((m, k, bits)) => {
                &&& applied == Ok::<(), subset::DecodeError>(())
                &&& final(registry)@ == sites_after(
                    old(registry)@,
                    names_in_filter(m, k, bits),
                    which,
                    slot,
                    op,
                )
            },
            Err(error) => {
                &&& applied == Err::<(), subset::DecodeError>(error)
                &&& final(registry)@ == old(registry)@
            },
        },
{
    let filter = match subset::decode(blob) {
        Ok(filter) => filter,
        Err(error) => {
            return Err(error);
        },
    };
    let ghost before = registry@;
    let ghost wanted = names_in_filter(filter.m, filter.k, filter.bits@);
    let ghost after = sites_after(before, wanted, which, slot, op);
    let mut i: usize = 0;
    while i < registry.sites.len()
        invariant
            i <= registry.sites@.len(),
            slot < MAX_INSTRUMENTATIONS,
            filter.wf(),
            wanted == names_in_filter(filter.m, filter.k, filter.bits@),
            after == sites_after(before, wanted, which, slot, op),
            registry@ == after.take(i as int) + before.skip(i as int),
            before.len() == registry.sites@.len(),
        decreases registry.sites@.len() - i,
    {
        let hit = filter.contains_id(subset::id_of(registry.sites[i].name));
        assert(registry@[i as int] == before[i as int]);
        assert(registry.sites@[i as int].name@ == before[i as int].name);
        assert(wanted.contains(before[i as int].name) == hit);
        update_site(registry, i, which, slot, op, hit);
        assert(registry@ =~= after.take(i + 1) + before.skip(i + 1));
        i = i + 1;
    }
    assert(registry@ =~= after);
    Ok(())
}

/// Whether the first site with a name is enabled for a slot.
pub open spec fn first_is_enabled(sites: Seq<SiteView>, name: Seq<char>, slot: u8) -> bool
    decreases sites.len(),
{
    if sites.len() == 0 {
        false
    } else if sites.first().name == name {
        sites.first().enabled.contains(slot)
    } else {
        first_is_enabled(sites.drop_first(), name, slot)
    }
}

/// Whether a function is enabled for a slot.
pub fn slot_is_enabled(registry: &Registry, name: &str, slot: u8) -> (enabled: bool)
    requires
        slot < MAX_INSTRUMENTATIONS,
    ensures
        enabled == first_is_enabled(registry@, name@, slot),
{
    let b = bit(slot);
    let ghost all = registry@;
    let mut i: usize = 0;
    assert(all.skip(0) =~= all);
    while i < registry.sites.len()
        invariant
            i <= registry.sites@.len(),
            slot < MAX_INSTRUMENTATIONS,
            b == 1u64 << slot,
            all == registry@,
            first_is_enabled(all, name@, slot) == first_is_enabled(
                all.skip(i as int),
                name@,
                slot,
            ),
        decreases registry.sites@.len() - i,
    {
        let site = &registry.sites[i];
        let ghost rest = all.skip(i as int);
        assert(rest[0] == site@);
        if same_text(site.name, name) {
            assert(site@.enabled.contains(slot) == has_slot(site.enabled_mask, slot));
            return site.enabled_mask & b != 0;
        }
        assert(rest.drop_first() =~= all.skip(i + 1));
        i = i + 1;
    }
    false
}

/// A function is enabled exactly if it is listed, where sites with the same name are alike.
/// They are alike while nobody traces them, and no update parts them.
pub proof fn lemma_is_enabled_agrees_with_the_listing(
    sites: Seq<SiteView>,
    name: Seq<char>,
    slot: u8,
)
    requires
        names_agree(sites, SiteMask::Enabled, slot),
    ensures
        first_is_enabled(sites, name, slot) <==> site_names(
            sites_with(sites, SiteMask::Enabled, slot),
        ).contains(name),
    decreases sites.len(),
{
    lemma_listed(sites, SiteMask::Enabled, slot, name);
    if sites.len() > 0 {
        let rest = sites.drop_first();
        assert forall|i: int| 0 <= i < rest.len() implies #[trigger] rest[i] == sites[i + 1] by {}
        lemma_is_enabled_agrees_with_the_listing(rest, name, slot);
        lemma_listed(rest, SiteMask::Enabled, slot, name);
        assert(sites.first() == sites[0]);
        if exists|i: int|
            0 <= i < sites.len() && (#[trigger] sites[i]).name == name && slots_of(
                sites[i],
                SiteMask::Enabled,
            ).contains(slot) {
            let i = choose|i: int|
                0 <= i < sites.len() && (#[trigger] sites[i]).name == name && slots_of(
                    sites[i],
                    SiteMask::Enabled,
                ).contains(slot);
            if sites[0].name != name {
                assert(rest[i - 1].name == name);
            }
        }
    }
}

/// A function is enabled after a replacement if it was asked for and there is a site with
/// its name.
pub proof fn lemma_is_enabled_after_replacement(
    sites: Seq<SiteView>,
    wanted: Set<Seq<char>>,
    slot: u8,
    name: Seq<char>,
)
    ensures
        first_is_enabled(
            sites_after(sites, wanted, SiteMask::Enabled, slot, BitOp::Replace),
            name,
            slot,
        ) <==> wanted.contains(name) && site_names(sites).contains(name),
    decreases sites.len(),
{
    let after = sites_after(sites, wanted, SiteMask::Enabled, slot, BitOp::Replace);
    let names = site_names(sites);
    if sites.len() > 0 {
        let rest = sites.drop_first();
        lemma_is_enabled_after_replacement(rest, wanted, slot, name);
        assert(after.drop_first() =~= sites_after(
            rest,
            wanted,
            SiteMask::Enabled,
            slot,
            BitOp::Replace,
        ));
        assert(after.first().name == names[0]);
        if names.contains(name) && names[0] != name {
            let i = choose|i: int| 0 <= i < names.len() && names[i] == name;
            assert(site_names(rest)[i - 1] == name);
        }
        if site_names(rest).contains(name) {
            let i = choose|i: int|
                0 <= i < site_names(rest).len() && site_names(rest)[i] == name;
            assert(names[i + 1] == name);
        }
    }
}

/// The names of the sites that are enabled for a slot, one per site.
pub fn slot_enabled_names(registry: &Registry, slot: u8) -> (names: Vec<&'static str>)
    requires
        slot < MAX_INSTRUMENTATIONS,
    ensures
        texts(names@) == site_names(sites_with(registry@, SiteMask::Enabled, slot)),
{
    names_with(registry, SiteMask::Enabled, slot)
}

/// The names of the sites that are child-only for a slot, one per site.
pub fn slot_child_only_names(registry: &Registry, slot: u8) -> (names: Vec<&'static str>)
    requires
        slot < MAX_INSTRUMENTATIONS,
    ensures
        texts(names@) == site_names(sites_with(registry@, SiteMask::ChildOnly, slot)),
{
    names_with(registry, SiteMask::ChildOnly, slot)
}

/// Which keys ids stand for: one id more adds the key at that place, and nothing if there is
/// none; no ids stand for nothing.
pub proof fn lemma_an_id_stands_for_the_key_at_its_place(
    keys: Seq<Seq<char>>,
    ids: Seq<u64>,
    id: u64,
    key: Seq<char>,
)
    ensures
        !keys_with_ids(keys, Seq::empty()).contains(key),
        keys_with_ids(keys, ids.push(id)).contains(key) <==> keys_with_ids(keys, ids).contains(key)
            || (id < keys.len() && keys[id as int] == key),
{
    lemma_ids_of_more(keys, ids, id, ids.push(id), key);
}

/// Which names are in a filter: those with a bit at every position of their hash.
pub proof fn lemma_names_in_a_filter_have_all_their_bits(
    m: u32,
    k: u8,
    bits: Seq<u8>,
    name: Seq<char>,
)
    ensures
        names_in_filter(m, k, bits).contains(name) <==> (forall|round: nat|
            round < k ==> subset::bit_at(
                bits,
                #[trigger] subset::position(subset::fnv1a(encode_utf8(name)), round, m),
            )),
{
}

/// What applying an encoded list does: a text that is refused changes nothing and is answered
/// with the reason; any other hits exactly the sites whose key has a listed id.
pub proof fn lemma_what_applying_a_list_does(
    before: Seq<SiteView>,
    after: Seq<SiteView>,
    keys: Seq<Seq<char>>,
    text: Seq<char>,
    which: SiteMask,
    slot: u8,
    op: BitOp,
    applied: Result<(), DecodeError>,
    i: int,
)
    requires
        encoded_and_applied(before, after, keys, text, which, slot, op, applied),
        0 <= i < before.len(),
    ensures
        applied is Ok <==> decoded(text) is Ok,
        applied matches Err(error) ==> decoded(text) == Err::<Seq<u64>, DecodeError>(error)
            && after == before,
        after.len() == before.len(),
        after[i].name == before[i].name,
        decoded(text) matches Ok(ids) ==> {
            let hit = exists|k: int|
                0 <= k < ids.len() && (#[trigger] ids[k]) < keys.len() && keys[ids[k] as int]
                    == before[i].name;
            let (was, is) = match which {
                SiteMask::Enabled => (before[i].enabled, after[i].enabled),
                SiteMask::ChildOnly => (before[i].child_only, after[i].child_only),
            };
            is.contains(slot) <==> match op {
                BitOp::Replace => hit,
                BitOp::Add => was.contains(slot) || hit,
                BitOp::Remove => was.contains(slot) && !hit,
            }
        },
{
}

/// Whether a function is enabled is what the first site with its name says, and a name that no
/// site has is not enabled.
pub proof fn lemma_the_first_site_says_whether_a_function_is_enabled(
    registry: Registry,
    name: &str,
    slot: u8,
    at: int,
    enabled: bool,
)
    requires
        call_ensures(slot_is_enabled, (&registry, name, slot), enabled),
    ensures
        0 <= at < registry.sites@.len() && registry.sites@[at].name@ == name@ && (forall|i: int|
            0 <= i < at ==> (#[trigger] registry.sites@[i]).name@ != name@) ==> (enabled
            <==> registry@[at].enabled.contains(slot)),
        (forall|i: int| 0 <= i < registry.sites@.len() ==> (#[trigger] registry.sites@[i]).name@
            != name@) ==> !enabled,
{
    let sites = registry@;
    if 0 <= at < sites.len() && registry.sites@[at].name@ == name@ && (forall|i: int|
        0 <= i < at ==> (#[trigger] registry.sites@[i]).name@ != name@) {
        assert forall|i: int| 0 <= i < at implies (#[trigger] sites[i]).name != name@ by {
            assert(registry.sites@[i].name@ == sites[i].name);
        }
        lemma_first_is_at(sites, name@, slot, at);
    }
    if forall|i: int| 0 <= i < registry.sites@.len() ==> (#[trigger] registry.sites@[i]).name@
        != name@ {
        assert forall|i: int| 0 <= i < sites.len() implies (#[trigger] sites[i]).name != name@ by {
            assert(registry.sites@[i].name@ == sites[i].name);
        }
        lemma_first_is_nowhere(sites, name@, slot);
    }
}

proof fn lemma_first_is_at(sites: Seq<SiteView>, name: Seq<char>, slot: u8, at: int)
    requires
        0 <= at < sites.len(),
        sites[at].name == name,
        forall|i: int| 0 <= i < at ==> (#[trigger] sites[i]).name != name,
    ensures
        first_is_enabled(sites, name, slot) == sites[at].enabled.contains(slot),
    decreases sites.len(),
{
    if at > 0 {
        let rest = sites.drop_first();
        assert(sites[0].name != name);
        assert forall|i: int| 0 <= i < at - 1 implies (#[trigger] rest[i]).name != name by {
            assert(rest[i] == sites[i + 1]);
        }
        assert(rest[at - 1] == sites[at]);
        lemma_first_is_at(rest, name, slot, at - 1);
    }
}

proof fn lemma_first_is_nowhere(sites: Seq<SiteView>, name: Seq<char>, slot: u8)
    requires
        forall|i: int| 0 <= i < sites.len() ==> (#[trigger] sites[i]).name != name,
    ensures
        !first_is_enabled(sites, name, slot),
    decreases sites.len(),
{
    if sites.len() > 0 {
        let rest = sites.drop_first();
        assert(sites[0].name != name);
        assert forall|i: int| 0 <= i < rest.len() implies (#[trigger] rest[i]).name != name by {
            assert(rest[i] == sites[i + 1]);
        }
        lemma_first_is_nowhere(rest, name, slot);
    }
}

/// What applying a filter does: a text that is refused changes nothing and is answered with the
/// reason; any other hits exactly the sites whose names are in the filter.
pub proof fn lemma_what_applying_a_filter_does(
    registry: &mut Registry,
    blob: &str,
    which: SiteMask,
    slot: u8,
    op: BitOp,
    applied: Result<(), subset::DecodeError>,
    i: int,
)
    requires
        call_ensures(apply_blob, (registry, blob, which, slot, op), applied),
        0 <= i < old(registry)@.len(),
    ensures
        applied is Ok <==> subset::decoded(blob@) is Ok,
        applied matches Err(error) ==> subset::decoded(blob@) == Err::<
            (u32, u8, Seq<u8>),
            subset::DecodeError,
        >(error) && final(registry)@ == old(registry)@,
        subset::decoded(blob@) matches Ok((m, k, bits)) ==> {
            let hit = subset::member(
                m,
                k,
                bits,
                subset::fnv1a(encode_utf8(old(registry)@[i].name)),
            );
            let (was, is) = match which {
                SiteMask::Enabled => (old(registry)@[i].enabled, final(registry)@[i].enabled),
                SiteMask::ChildOnly => (
                    old(registry)@[i].child_only,
                    final(registry)@[i].child_only,
                ),
            };
            is.contains(slot) <==> match op {
                BitOp::Replace => hit,
                BitOp::Add => was.contains(slot) || hit,
                BitOp::Remove => was.contains(slot) && !hit,
            }
        },
{
}

/// Names and ids hit the same sites where the ids are those of the names: what is applied by
/// name goes by the names given, what is applied by id by the keys at those places.
pub proof fn lemma_what_names_and_ids_hit(
    by_name: &mut Registry,
    by_id: &mut Registry,
    names: &[&str],
    ids: Vec<u64>,
    which: SiteMask,
    slot: u8,
    op: BitOp,
)
    requires
        call_ensures(apply_names, (by_name, names, which, slot, op), ()),
        call_ensures(apply_ids, (by_id, &ids, which, slot, op), ()),
    ensures
        final(by_name)@ == sites_after(old(by_name)@, texts(names@).to_set(), which, slot, op),
        final(by_id)@ == sites_after(
            old(by_id)@,
            keys_with_ids(key_list(site_names(old(by_id)@)), ids@),
            which,
            slot,
            op,
        ),
{
}

} // verus!
