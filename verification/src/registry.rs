//! Every traceable call site of a program, and the key and id orders derived
//! from their names.
use vstd::prelude::*;

use crate::keys::{is_key_list, key_list, lemma_insert_at_place, lemma_is_the_key_list,
    lemma_key_list_exists, lemma_key_list_is_sorted_and_complete, lemma_place_exists,
    lemma_strictly_sorted_distinct, lemma_strictly_sorted_unique, search, sorted_keys, texts};
use crate::mask::{lemma_empty_mask, lemma_slots_are_bit_numbers, slot_set};
use crate::text::{precedes, same_text};

verus! {

/// One traceable function.
///
/// A site is identified by its name: that key is what configuration selects.
/// Two sites with the same name are one selectable thing and toggle together.
#[derive(Debug)]
pub struct TraceSite {
    /// The registry key that enables and disables the function.
    pub name: &'static str,
    /// The slots of the instrumentations that trace the function. Zero means
    /// that nobody does.
    pub enabled_mask: u64,
    /// The slots for which the function is in child-only mode: it then makes a
    /// span only under a recording span of the same slot, never as a root.
    pub child_only_mask: u64,
}

/// What a site stands for: its key and its two sets of slots.
#[verifier::ext_equal]
pub struct SiteView {
    pub name: Seq<char>,
    pub enabled: Set<u8>,
    pub child_only: Set<u8>,
}

impl View for TraceSite {
    type V = SiteView;

    open spec fn view(&self) -> SiteView {
        SiteView {
            name: self.name@,
            enabled: slot_set(self.enabled_mask),
            child_only: slot_set(self.child_only_mask),
        }
    }
}

impl TraceSite {
    /// A site for `name`, with every slot disabled and root-capable.
    pub fn new(name: &'static str) -> (site: Self)
        ensures
            site.name == name,
            site.enabled_mask == 0,
            site.child_only_mask == 0,
            site@ == (SiteView {
                name: name@,
                enabled: Set::empty(),
                child_only: Set::empty(),
            }),
    {
        proof {
            lemma_empty_mask(0);
        }
        TraceSite { name, enabled_mask: 0, child_only_mask: 0 }
    }
}

/// The sites of a program, in no particular order.
#[derive(Debug)]
pub struct Registry {
    /// The sites. A position in here means nothing; a name does.
    pub sites: Vec<TraceSite>,
}

impl View for Registry {
    type V = Seq<SiteView>;

    open spec fn view(&self) -> Seq<SiteView> {
        self.sites@.map_values(|site: TraceSite| site@)
    }
}

/// The names of a list of sites, one per site.
pub open spec fn site_names(sites: Seq<SiteView>) -> Seq<Seq<char>> {
    sites.map_values(|site: SiteView| site.name)
}

impl Registry {
    /// The registry keys: the distinct names of the sites, sorted.
    pub open spec fn keys(&self) -> Seq<Seq<char>> {
        key_list(site_names(self@))
    }

    /// A registry of the given sites.
    pub fn new(sites: Vec<TraceSite>) -> (registry: Self)
        ensures
            registry.sites == sites,
    {
        Registry { sites }
    }

    /// The names of the sites, one per site.
    pub fn names(&self) -> (names: Vec<&'static str>)
        ensures
            texts(names@) == site_names(self@),
    {
        let mut names: Vec<&'static str> = Vec::new();
        let mut i: usize = 0;
        while i < self.sites.len()
            invariant
                i <= self.sites@.len(),
                names@.len() == i,
                forall|k: int| 0 <= k < i ==> #[trigger] names@[k] == self.sites@[k].name,
            decreases self.sites@.len() - i,
        {
            names.push(self.sites[i].name);
            i = i + 1;
        }
        assert(texts(names@) =~= site_names(self@));
        names
    }
}

/// Every distinct registry key, sorted.
///
/// The list is for discovery. Its order depends on the keys alone, never on the
/// order of the sites.
pub fn keys(registry: &Registry) -> (list: Vec<&'static str>)
    ensures
        texts(list@) == registry.keys(),
        is_key_list(texts(list@), site_names(registry@)),
{
    let names = registry.names();
    let list = sorted_keys(&names);
    proof {
        lemma_key_list_exists(site_names(registry@));
    }
    list
}

/// The positions at which `key` stands in `names`, ascending.
pub open spec fn positions_of(names: Seq<Seq<char>>, key: Seq<char>) -> Seq<usize>
    decreases names.len(),
{
    if names.len() == 0 {
        Seq::empty()
    } else {
        let before = positions_of(names.drop_last(), key);
        if names.last() == key {
            before.push((names.len() - 1) as usize)
        } else {
            before
        }
    }
}

/// The sites that carry each key, in the order of the keys.
pub open spec fn site_groups(sites: Seq<SiteView>) -> Seq<Seq<usize>> {
    let names = site_names(sites);
    key_list(names).map_values(|key: Seq<char>| positions_of(names, key))
}

/// A position is listed for a key exactly if the key stands there.
pub proof fn lemma_positions_of(names: Seq<Seq<char>>, key: Seq<char>)
    requires
        names.len() <= usize::MAX,
    ensures
        forall|at: usize| #[trigger]
            positions_of(names, key).contains(at) <==> at < names.len() && names[at as int] == key,
    decreases names.len(),
{
    if names.len() > 0 {
        let front = names.drop_last();
        let before = positions_of(front, key);
        let all = positions_of(names, key);
        let last = (names.len() - 1) as usize;
        lemma_positions_of(front, key);
        assert forall|at: usize| #[trigger] all.contains(at) <==> at < names.len()
            && names[at as int] == key by {
            assert(before.contains(at) <==> at < front.len() && front[at as int] == key);
            if before.contains(at) {
                let k = choose|k: int| 0 <= k < before.len() && before[k] == at;
                assert(all[k] == at);
            }
            if names.last() == key {
                assert(all[all.len() - 1] == last);
            }
            if all.contains(at) && !before.contains(at) {
                let k = choose|k: int| 0 <= k < all.len() && all[k] == at;
                if k < before.len() {
                    assert(before[k] == at);
                }
            }
        }
    }
}

/// The sorted distinct keys and, aligned with them, the positions of the sites
/// that carry each key.
pub fn groups(registry: &Registry) -> (groups: (Vec<&'static str>, Vec<Vec<usize>>))
    ensures
        texts(groups.0@) == registry.keys(),
        groups.1@.len() == groups.0@.len(),
        groups.1@.map_values(|group: Vec<usize>| group@) == site_groups(registry@),
{
    let names = keys(registry);
    let mut sites: Vec<Vec<usize>> = Vec::new();
    let ghost wanted = site_groups(registry@);
    let mut i: usize = 0;
    while i < names.len()
        invariant
            i <= names@.len(),
            texts(names@) == registry.keys(),
            wanted == site_groups(registry@),
            sites@.len() == i,
            forall|k: int| 0 <= k < i ==> (#[trigger] sites@[k])@ == wanted[k],
        decreases names@.len() - i,
    {
        let group = positions(registry, names[i]);
        assert(texts(names@)[i as int] == names@[i as int]@);
        sites.push(group);
        i = i + 1;
    }
    assert(wanted.len() == texts(names@).len());
    assert(sites@.map_values(|group: Vec<usize>| group@) =~= wanted);
    (names, sites)
}

/// The positions of the sites that carry `key`.
fn positions(registry: &Registry, key: &str) -> (group: Vec<usize>)
    ensures
        group@ == positions_of(site_names(registry@), key@),
{
    let ghost names = site_names(registry@);
    let mut group: Vec<usize> = Vec::new();
    let mut i: usize = 0;
    while i < registry.sites.len()
        invariant
            i <= registry.sites@.len(),
            names == site_names(registry@),
            group@ == positions_of(names.take(i as int), key@),
        decreases registry.sites@.len() - i,
    {
        assert(names.take(i + 1).drop_last() =~= names.take(i as int));
        assert(names[i as int] == registry.sites@[i as int].name@);
        if same_text(registry.sites[i].name, key) {
            group.push(i);
        }
        i = i + 1;
    }
    assert(names.take(i as int) =~= names);
    group
}

/// The distinct registry keys, sorted. A key's id is its index in this list, so
/// that ids depend on nothing but the keys and stay dense.
pub fn names_by_id(registry: &Registry) -> (list: Vec<&'static str>)
    ensures
        texts(list@) == registry.keys(),
{
    groups(registry).0
}

/// The registry key with the given id, if there is one.
pub fn name_by_id(registry: &Registry, id: u64) -> (name: Option<&'static str>)
    ensures
        match name {
            Some(key) => id < registry.keys().len() && registry.keys()[id as int] == key@,
            None => id >= registry.keys().len(),
        },
{
    let list = names_by_id(registry);
    assert(texts(list@).len() == list@.len());
    if id < list.len() as u64 {
        let at: usize = id as usize;
        assert(texts(list@)[at as int] == list@[at as int]@);
        Some(list[at])
    } else {
        None
    }
}

/// The id of a registry key, if the program has that key.
pub fn id_of_name(registry: &Registry, name: &str) -> (id: Option<u64>)
    ensures
        match id {
            Some(id) => id < registry.keys().len() && registry.keys()[id as int] == name@,
            None => !registry.keys().contains(name@),
        },
{
    let list = names_by_id(registry);
    proof {
        lemma_key_list_exists(site_names(registry@));
    }
    match search(&list, name) {
        Ok(at) => {
            assert(texts(list@)[at as int] == list@[at as int]@);
            Some(at as u64)
        },
        Err(_) => None,
    }
}

/// The positions of the sites that carry each key, in the order of the ids, so
/// that one id reaches every site with its key.
pub fn sites_by_id(registry: &Registry) -> (sites: Vec<Vec<usize>>)
    ensures
        sites@.map_values(|group: Vec<usize>| group@) == site_groups(registry@),
{
    groups(registry).1
}

/// Ids and keys name each other: the key with an id has that id and no other.
pub proof fn lemma_ids_name_keys(names: Seq<Seq<char>>, id: int, other: int)
    requires
        0 <= id < key_list(names).len(),
        0 <= other < key_list(names).len(),
    ensures
        key_list(names)[id] == key_list(names)[other] <==> id == other,
        names.contains(key_list(names)[id]),
{
    lemma_key_list_exists(names);
    lemma_strictly_sorted_distinct(key_list(names));
    assert(key_list(names).contains(key_list(names)[id]));
}

/// A new key renumbers the ids behind it and no others: the keys are what they were, with
/// the new one in its place.
pub proof fn lemma_new_key_renumbers_the_ids_behind_it(
    names: Seq<Seq<char>>,
    key: Seq<char>,
) -> (place: int)
    requires
        !names.contains(key),
    ensures
        0 <= place <= key_list(names).len(),
        key_list(names.push(key)) == key_list(names).insert(place, key),
{
    lemma_key_list_exists(names);
    let list = key_list(names);
    let place = lemma_place_exists(list, key);
    lemma_insert_at_place(list, key, place);
    let more = names.push(key);
    assert forall|other: Seq<char>|
        #![trigger list.insert(place, key).contains(other)]
        #![trigger more.contains(other)]
        list.insert(place, key).contains(other) <==> more.contains(other) by {
        assert(list.contains(other) <==> names.contains(other));
        if names.contains(other) {
            let i = choose|i: int| 0 <= i < names.len() && names[i] == other;
            assert(more[i] == other);
        }
        if other == key {
            assert(more[names.len() as int] == other);
        }
        if more.contains(other) && other != key {
            let i = choose|i: int| 0 <= i < more.len() && more[i] == other;
            assert(names[i] == other);
        }
    }
    lemma_is_the_key_list(list.insert(place, key), more);
    place
}

/// Keys and ids depend on which names there are, not on the order or the number
/// of the sites that carry them.
pub proof fn lemma_ids_are_stable(names: Seq<Seq<char>>, others: Seq<Seq<char>>)
    requires
        forall|key: Seq<char>|
            #![trigger names.contains(key)]
            #![trigger others.contains(key)]
            names.contains(key) <==> others.contains(key),
    ensures
        key_list(names) == key_list(others),
{
    lemma_key_list_exists(names);
    lemma_key_list_exists(others);
    lemma_strictly_sorted_unique(key_list(names), key_list(others));
}

/// What a registry stands for is read off its sites one by one: the name, and as slots the
/// numbers of the bits that are set in the two masks.
pub proof fn lemma_a_registry_is_its_sites(registry: Registry, i: int, slot: u8)
    requires
        0 <= i < registry.sites@.len(),
    ensures
        registry@.len() == registry.sites@.len(),
        registry@[i].name == registry.sites@[i].name@,
        registry@[i].enabled.contains(slot) <==> slot < 64 && (registry.sites@[i].enabled_mask
            >> slot) & 1 == 1,
        registry@[i].child_only.contains(slot) <==> slot < 64 && (
        registry.sites@[i].child_only_mask >> slot) & 1 == 1,
        site_names(registry@)[i] == registry.sites@[i].name@,
        site_names(registry@).len() == registry.sites@.len(),
{
    lemma_slots_are_bit_numbers(registry.sites@[i].enabled_mask, slot);
    lemma_slots_are_bit_numbers(registry.sites@[i].child_only_mask, slot);
}

/// The keys of a registry are the names of its sites, sorted and each once.
pub proof fn lemma_keys_are_the_names_of_sites(
    registry: Registry,
    list: Vec<&'static str>,
    by_id: Vec<&'static str>,
    names: Vec<&'static str>,
    key: Seq<char>,
)
    requires
        call_ensures(keys, (&registry,), list),
        call_ensures(names_by_id, (&registry,), by_id),
        call_ensures(Registry::names, (&registry,), names),
    ensures
        texts(list@).contains(key) <==> exists|i: int|
            0 <= i < registry.sites@.len() && (#[trigger] registry.sites@[i]).name@ == key,
        forall|i: int, j: int|
            0 <= i < j < list@.len() ==> precedes(
                (#[trigger] list@[i])@,
                (#[trigger] list@[j])@,
            ),
        texts(by_id@) == texts(list@),
        names@.len() == registry.sites@.len(),
        forall|i: int|
            0 <= i < names@.len() ==> (#[trigger] names@[i])@ == registry.sites@[i].name@,
{
    let all = site_names(registry@);
    lemma_key_list_is_sorted_and_complete(all, key);
    if all.contains(key) {
        let i = choose|i: int| 0 <= i < all.len() && all[i] == key;
        assert(registry.sites@[i].name@ == key);
    }
    if exists|i: int|
        0 <= i < registry.sites@.len() && (#[trigger] registry.sites@[i]).name@ == key {
        let i = choose|i: int|
            0 <= i < registry.sites@.len() && (#[trigger] registry.sites@[i]).name@ == key;
        assert(all[i] == key);
    }
    assert forall|i: int, j: int| 0 <= i < j < list@.len() implies precedes(
        (#[trigger] list@[i])@,
        (#[trigger] list@[j])@,
    ) by {
        assert(texts(list@)[i] == list@[i]@ && texts(list@)[j] == list@[j]@);
        assert(precedes(key_list(all)[i], key_list(all)[j]));
    }
    assert(texts(names@).len() == names@.len());
    assert forall|i: int| 0 <= i < names@.len() implies (#[trigger] names@[i])@
        == registry.sites@[i].name@ by {
        assert(texts(names@)[i] == names@[i]@);
        assert(all[i] == registry.sites@[i].name@);
    }
}

/// Names and ids lead to each other: the id of a key is its place among the keys, each key has
/// one, the key with that id is the key again, and a name that no site has has none.
pub proof fn lemma_names_and_ids_lead_to_each_other(
    registry: Registry,
    list: Vec<&'static str>,
    name: &str,
    id: Option<u64>,
    number: u64,
    found: Option<&'static str>,
)
    requires
        call_ensures(keys, (&registry,), list),
        call_ensures(id_of_name, (&registry, name), id),
        call_ensures(name_by_id, (&registry, number), found),
    ensures
        id matches Some(at) ==> at < list@.len() && list@[at as int]@ == name@,
        id is None <==> !texts(list@).contains(name@),
        found matches Some(key) ==> number < list@.len() && list@[number as int]@ == key@,
        found is None <==> number >= list@.len(),
        id == Some(number) ==> (found matches Some(key) && key@ == name@),
        found matches Some(key) ==> (key@ == name@ ==> id == Some(number)),
{
    let all = site_names(registry@);
    assert(texts(list@).len() == list@.len());
    lemma_key_list_exists(all);
    lemma_strictly_sorted_distinct(key_list(all));
    if let Some(at) = id {
        assert(texts(list@)[at as int] == list@[at as int]@);
        assert(texts(list@).contains(name@));
    }
    if number < list@.len() {
        assert(texts(list@)[number as int] == list@[number as int]@);
        if list@[number as int]@ == name@ {
            assert(texts(list@).contains(name@));
        }
    }
}

/// One id reaches every site with its key and no other site, each once and in their order.
pub proof fn lemma_an_id_reaches_every_site_with_its_key(
    registry: Registry,
    list: Vec<&'static str>,
    groups_of: (Vec<&'static str>, Vec<Vec<usize>>),
    by_id: Vec<Vec<usize>>,
    id: int,
    at: usize,
)
    requires
        call_ensures(keys, (&registry,), list),
        call_ensures(groups, (&registry,), groups_of),
        call_ensures(sites_by_id, (&registry,), by_id),
        0 <= id < list@.len(),
    ensures
        by_id@.len() == list@.len(),
        groups_of.1@.len() == list@.len(),
        texts(groups_of.0@) == texts(list@),
        by_id@[id]@ == groups_of.1@[id]@,
        by_id@[id]@.contains(at) <==> at < registry.sites@.len()
            && registry.sites@[at as int].name@ == list@[id]@,
        forall|i: int, j: int|
            0 <= i < j < by_id@[id]@.len() ==> #[trigger] by_id@[id]@[i] < #[trigger] by_id@[id]@[j],
{
    let names = site_names(registry@);
    let view = |group: Vec<usize>| group@;
    let wanted = site_groups(registry@);
    assert(registry.sites.len() == registry.sites@.len());
    assert(texts(list@).len() == list@.len() && texts(list@)[id] == list@[id]@);
    assert(wanted.len() == list@.len());
    assert(wanted[id] == positions_of(names, list@[id]@));
    assert(by_id@.map_values(view)[id] == by_id@[id]@);
    assert(groups_of.1@.map_values(view)[id] == groups_of.1@[id]@);
    assert(by_id@.map_values(view).len() == by_id@.len());
    lemma_positions_of(names, list@[id]@);
    lemma_positions_ascend(names, list@[id]@);
    if at < names.len() {
        assert(names[at as int] == registry.sites@[at as int].name@);
    }
}

proof fn lemma_positions_ascend(names: Seq<Seq<char>>, key: Seq<char>)
    requires
        names.len() <= usize::MAX,
    ensures
        forall|i: int, j: int|
            0 <= i < j < positions_of(names, key).len() ==> #[trigger] positions_of(names, key)[i]
                < #[trigger] positions_of(names, key)[j],
        forall|i: int|
            0 <= i < positions_of(names, key).len() ==> #[trigger] positions_of(names, key)[i]
                < names.len(),
    decreases names.len(),
{
    if names.len() > 0 {
        let before = positions_of(names.drop_last(), key);
        let all = positions_of(names, key);
        lemma_positions_ascend(names.drop_last(), key);
        assert forall|i: int| 0 <= i < all.len() implies #[trigger] all[i] < names.len() by {
            if i < before.len() {
                assert(all[i] == before[i]);
            }
        }
        assert forall|i: int, j: int| 0 <= i < j < all.len() implies #[trigger] all[i]
            < #[trigger] all[j] by {
            assert(all[i] == before[i]);
            if j < before.len() {
                assert(all[j] == before[j]);
            }
        }
    }
}

/// A new site has its name and no slot, and a new registry has the sites it is given.
pub proof fn lemma_new_sites_are_traced_by_nobody(
    name: &'static str,
    site: TraceSite,
    sites: Vec<TraceSite>,
    registry: Registry,
    slot: u8,
)
    requires
        call_ensures(TraceSite::new, (name,), site),
        call_ensures(Registry::new, (sites,), registry),
    ensures
        site.name@ == name@,
        site.enabled_mask == 0,
        site.child_only_mask == 0,
        !site@.enabled.contains(slot),
        !site@.child_only.contains(slot),
        registry.sites@ == sites@,
{
}

} // verus!
