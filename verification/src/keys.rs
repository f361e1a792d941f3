//! Sorted lists of distinct registry keys.
use vstd::prelude::*;

use crate::text::{key_order, lemma_precedes_irreflexive, lemma_precedes_total,
    lemma_precedes_transitive, precedes, KeyOrder};

verus! {

/// The texts of a list of strings.
pub open spec fn texts<'a>(strings: Seq<&'a str>) -> Seq<Seq<char>> {
    strings.map_values(|s: &'a str| s@)
}

/// Whether every text of a list precedes the ones behind it, so that the list
/// is sorted and holds nothing twice.
pub open spec fn strictly_sorted(list: Seq<Seq<char>>) -> bool {
    forall|i: int, j: int| 0 <= i < j < list.len() ==> precedes(#[trigger] list[i], #[trigger] list[j])
}

/// Whether `list` is `names` sorted, with every name once.
pub open spec fn is_key_list(list: Seq<Seq<char>>, names: Seq<Seq<char>>) -> bool {
    &&& strictly_sorted(list)
    &&& forall|key: Seq<char>|
        #![trigger list.contains(key)]
        #![trigger names.contains(key)]
        list.contains(key) <==> names.contains(key)
}

/// The distinct texts among `names`, sorted.
pub open spec fn key_list(names: Seq<Seq<char>>) -> Seq<Seq<char>> {
    choose|list: Seq<Seq<char>>| is_key_list(list, names)
}

/// A strictly sorted list holds nothing twice.
pub proof fn lemma_strictly_sorted_distinct(list: Seq<Seq<char>>)
    requires
        strictly_sorted(list),
    ensures
        list.no_duplicates(),
{
    assert forall|i: int, j: int| 0 <= i < list.len() && 0 <= j < list.len() && i != j implies list[i]
        != list[j] by {
        lemma_precedes_irreflexive(list[i]);
    }
}

/// Two strictly sorted lists with the same members are the same list.
pub proof fn lemma_strictly_sorted_unique(a: Seq<Seq<char>>, b: Seq<Seq<char>>)
    requires
        strictly_sorted(a),
        strictly_sorted(b),
        forall|key: Seq<char>|
            #![trigger a.contains(key)]
            #![trigger b.contains(key)]
            a.contains(key) <==> b.contains(key),
    ensures
        a == b,
    decreases a.len(),
{
    if a.len() == 0 {
        if b.len() > 0 {
            assert(b.contains(b[0]));
        }
        assert(a =~= b);
    } else {
        assert(a.contains(a.last()));
        assert(b.len() > 0);
        assert(b.contains(b.last()));
        let i = choose|i: int| 0 <= i < b.len() && b[i] == a.last();
        let j = choose|j: int| 0 <= j < a.len() && a[j] == b.last();
        assert(a.last() == b.last()) by {
            if a.last() != b.last() {
                assert(precedes(b[i], b.last()));
                assert(precedes(a[j], a.last()));
                lemma_precedes_transitive(a.last(), b.last(), a.last());
                lemma_precedes_irreflexive(a.last());
            }
        }
        let x = a.drop_last();
        let y = b.drop_last();
        lemma_strictly_sorted_distinct(a);
        lemma_strictly_sorted_distinct(b);
        assert forall|key: Seq<char>| #[trigger] x.contains(key) <==> y.contains(key) by {
            if x.contains(key) {
                let k = choose|k: int| 0 <= k < x.len() && x[k] == key;
                assert(a[k] == key);
                assert(a.contains(key));
                let m = choose|m: int| 0 <= m < b.len() && b[m] == key;
                assert(y[m] == key);
            }
            if y.contains(key) {
                let k = choose|k: int| 0 <= k < y.len() && y[k] == key;
                assert(b[k] == key);
                assert(b.contains(key));
                let m = choose|m: int| 0 <= m < a.len() && a[m] == key;
                assert(x[m] == key);
            }
        }
        lemma_strictly_sorted_unique(x, y);
        assert(a =~= x.push(a.last()));
        assert(b =~= y.push(b.last()));
    }
}

/// A list that is sorted and distinct is the key list of its members.
pub proof fn lemma_is_the_key_list(list: Seq<Seq<char>>, names: Seq<Seq<char>>)
    requires
        is_key_list(list, names),
    ensures
        list == key_list(names),
{
    lemma_strictly_sorted_unique(list, key_list(names));
}

/// Where a key belongs in a sorted list: all before precede it, none from
/// there on does.
pub open spec fn is_place_of(list: Seq<Seq<char>>, key: Seq<char>, at: int) -> bool {
    &&& 0 <= at <= list.len()
    &&& forall|i: int| 0 <= i < at ==> precedes(#[trigger] list[i], key)
    &&& forall|i: int| at <= i < list.len() ==> precedes(key, #[trigger] list[i])
}

/// Putting a new key in its place keeps a list sorted.
pub proof fn lemma_insert_at_place(list: Seq<Seq<char>>, key: Seq<char>, at: int)
    requires
        strictly_sorted(list),
        is_place_of(list, key, at),
    ensures
        strictly_sorted(list.insert(at, key)),
        forall|other: Seq<char>| #[trigger]
            list.insert(at, key).contains(other) <==> list.contains(other) || other == key,
{
    let grown = list.insert(at, key);
    assert forall|i: int, j: int| 0 <= i < j < grown.len() implies precedes(
        #[trigger] grown[i],
        #[trigger] grown[j],
    ) by {
        let a = if i < at { i } else { i - 1 };
        let b = if j < at { j } else { j - 1 };
        if i != at && j != at {
            assert(grown[i] == list[a] && grown[j] == list[b]);
        } else if i == at {
            assert(grown[j] == list[b]);
        } else {
            assert(grown[i] == list[a]);
        }
    }
    assert forall|other: Seq<char>| #[trigger] grown.contains(other) <==> list.contains(other)
        || other == key by {
        if list.contains(other) {
            let i = choose|i: int| 0 <= i < list.len() && list[i] == other;
            assert(grown[if i < at { i } else { i + 1 }] == other);
        }
        if other == key {
            assert(grown[at] == key);
        }
        if grown.contains(other) && other != key {
            let i = choose|i: int| 0 <= i < grown.len() && grown[i] == other;
            assert(list[if i < at { i } else { i - 1 }] == other);
        }
    }
}

/// Every list of names has a key list.
pub proof fn lemma_key_list_exists(names: Seq<Seq<char>>)
    ensures
        is_key_list(key_list(names), names),
    decreases names.len(),
{
    if names.len() == 0 {
        assert(is_key_list(names, names));
    } else {
        let front = names.drop_last();
        let key = names.last();
        lemma_key_list_exists(front);
        let list = key_list(front);
        assert forall|other: Seq<char>| #[trigger] names.contains(other) <==> front.contains(other)
            || other == key by {
            if front.contains(other) {
                let i = choose|i: int| 0 <= i < front.len() && front[i] == other;
                assert(names[i] == other);
            }
            if other == key {
                assert(names[names.len() - 1] == other);
            }
            if names.contains(other) && other != key {
                let i = choose|i: int| 0 <= i < names.len() && names[i] == other;
                assert(front[i] == other);
            }
        }
        if list.contains(key) {
            assert(is_key_list(list, names));
        } else {
            let at = lemma_place_exists(list, key);
            lemma_insert_at_place(list, key, at);
            assert(is_key_list(list.insert(at, key), names));
        }
    }
}

/// A key that a sorted list does not hold has a place in it.
pub proof fn lemma_place_exists(list: Seq<Seq<char>>, key: Seq<char>) -> (at: int)
    requires
        strictly_sorted(list),
        !list.contains(key),
    ensures
        is_place_of(list, key, at),
    decreases list.len(),
{
    if list.len() == 0 {
        0
    } else {
        let last = list.last();
        lemma_precedes_total(last, key);
        assert(list.contains(last));
        if precedes(last, key) {
            assert forall|i: int| 0 <= i < list.len() implies precedes(#[trigger] list[i], key) by {
                if i < list.len() - 1 {
                    lemma_precedes_transitive(list[i], last, key);
                }
            }
            list.len() as int
        } else {
            let front = list.drop_last();
            assert(!front.contains(key)) by {
                if front.contains(key) {
                    let i = choose|i: int| 0 <= i < front.len() && front[i] == key;
                    assert(list[i] == key);
                }
            }
            let at = lemma_place_exists(front, key);
            assert forall|i: int| 0 <= i < at implies precedes(#[trigger] list[i], key) by {
                assert(list[i] == front[i]);
            }
            assert forall|i: int| at <= i < list.len() implies precedes(key, #[trigger] list[i]) by {
                if i < front.len() {
                    assert(list[i] == front[i]);
                }
            }
            at
        }
    }
}

/// Looks a key up in a sorted list by bisection: its position, or else the
/// place where it belongs.
pub fn search<'a>(list: &Vec<&'a str>, key: &str) -> (found: Result<usize, usize>)
    requires
        strictly_sorted(texts(list@)),
    ensures
        match found {
            Ok(at) => at < list@.len() && list@[at as int]@ == key@,
            Err(at) => is_place_of(texts(list@), key@, at as int) && !texts(list@).contains(key@),
        },
{
    let ghost all = texts(list@);
    let mut low: usize = 0;
    let mut high: usize = list.len();
    while low < high
        invariant
            all == texts(list@),
            strictly_sorted(all),
            low <= high <= list@.len(),
            forall|i: int| 0 <= i < low ==> precedes(#[trigger] all[i], key@),
            forall|i: int| high <= i < all.len() ==> precedes(key@, #[trigger] all[i]),
        decreases high - low,
    {
        let mid: usize = low + (high - low) / 2;
        let ghost pivot = all[mid as int];
        match key_order(list[mid], key) {
            KeyOrder::Same => {
                return Ok(mid);
            },
            KeyOrder::Before => {
                assert forall|i: int| 0 <= i < mid + 1 implies precedes(#[trigger] all[i], key@) by {
                    if i < mid {
                        lemma_precedes_transitive(all[i], pivot, key@);
                    }
                }
                low = mid + 1;
            },
            KeyOrder::After => {
                assert forall|i: int| mid <= i < all.len() implies precedes(
                    key@,
                    #[trigger] all[i],
                ) by {
                    if i > mid {
                        lemma_precedes_transitive(key@, pivot, all[i]);
                    }
                }
                high = mid;
            },
        }
    }
    proof {
        if all.contains(key@) {
            let i = choose|i: int| 0 <= i < all.len() && all[i] == key@;
            lemma_precedes_irreflexive(key@);
        }
    }
    Err(low)
}

/// Whether a sorted list holds a key.
pub fn holds<'a>(list: &Vec<&'a str>, key: &str) -> (held: bool)
    requires
        strictly_sorted(texts(list@)),
    ensures
        held == texts(list@).contains(key@),
{
    match search(list, key) {
        Ok(at) => {
            assert(texts(list@)[at as int] == key@);
            true
        },
        Err(_) => false,
    }
}

/// Adds a key to a sorted list, unless the list holds it already.
pub fn add_key<'a>(list: &mut Vec<&'a str>, key: &'a str)
    requires
        strictly_sorted(texts(old(list)@)),
    ensures
        strictly_sorted(texts(final(list)@)),
        forall|other: Seq<char>| #[trigger]
            texts(final(list)@).contains(other) <==> texts(old(list)@).contains(other) || other
                == key@,
{
    match search(list, key) {
        Ok(at) => {
            assert(texts(list@)[at as int] == key@);
        },
        Err(at) => {
            let ghost before = texts(list@);
            list.insert(at, key);
            assert(texts(list@) =~= before.insert(at as int, key@));
            proof {
                lemma_insert_at_place(before, key@, at as int);
            }
        },
    }
}

/// The distinct strings of a list, sorted.
pub fn sorted_keys<'a>(names: &Vec<&'a str>) -> (list: Vec<&'a str>)
    ensures
        texts(list@) == key_list(texts(names@)),
{
    let mut list: Vec<&'a str> = Vec::new();
    let mut i: usize = 0;
    let ghost all = texts(names@);
    while i < names.len()
        invariant
            i <= names@.len(),
            all == texts(names@),
            is_key_list(texts(list@), all.take(i as int)),
        decreases names@.len() - i,
    {
        let ghost before = texts(list@);
        add_key(&mut list, names[i]);
        proof {
            let seen = all.take(i as int);
            let now = all.take(i + 1);
            assert(now =~= seen.push(all[i as int]));
            assert forall|key: Seq<char>| #[trigger] texts(list@).contains(key) <==> now.contains(
                key,
            ) by {
                assert(before.contains(key) <==> seen.contains(key));
                if seen.contains(key) {
                    let k = choose|k: int| 0 <= k < seen.len() && seen[k] == key;
                    assert(now[k] == key);
                }
                if key == all[i as int] {
                    assert(now[i as int] == key);
                }
                if now.contains(key) && key != all[i as int] {
                    let k = choose|k: int| 0 <= k < now.len() && now[k] == key;
                    assert(seen[k] == key);
                }
            }
        }
        i = i + 1;
    }
    proof {
        assert(all.take(i as int) =~= all);
        lemma_is_the_key_list(texts(list@), all);
    }
    list
}

/// The key list of some names holds each of them and nothing else, sorted and once.
pub proof fn lemma_key_list_is_sorted_and_complete(names: Seq<Seq<char>>, key: Seq<char>)
    ensures
        key_list(names).contains(key) <==> names.contains(key),
        forall|i: int, j: int|
            0 <= i < j < key_list(names).len() ==> precedes(
                #[trigger] key_list(names)[i],
                #[trigger] key_list(names)[j],
            ),
        key_list(names).no_duplicates(),
{
    lemma_key_list_exists(names);
    lemma_strictly_sorted_distinct(key_list(names));
}

/// The texts of strings are the text of each, in their order.
pub proof fn lemma_texts_of_strings(strings: Seq<&str>)
    ensures
        texts(strings).len() == strings.len(),
        forall|i: int| 0 <= i < strings.len() ==> #[trigger] texts(strings)[i] == strings[i]@,
{
}

/// A list is strictly sorted exactly if every text in it precedes each one behind it.
pub proof fn lemma_strictly_sorted_means_each_precedes(list: Seq<Seq<char>>, i: int, j: int)
    requires
        0 <= i < j < list.len(),
    ensures
        strictly_sorted(list) ==> precedes(list[i], list[j]),
        !precedes(list[i], list[j]) ==> !strictly_sorted(list),
{
}

/// Sorting names gives each of them once and in order, whatever their order was.
pub proof fn lemma_sorting_gives_the_key_list<'a>(names: Vec<&'a str>, list: Vec<&'a str>)
    requires
        call_ensures(sorted_keys, (&names,), list),
    ensures
        texts(list@) == key_list(texts(names@)),
{
}

/// Searching a sorted list finds a text exactly if it is there.
pub proof fn lemma_searching_finds_what_is_there<'a>(
    list: Vec<&'a str>,
    key: &str,
    found: Result<usize, usize>,
    held: bool,
)
    requires
        strictly_sorted(texts(list@)),
        call_ensures(search, (&list, key), found),
        call_ensures(holds, (&list, key), held),
    ensures
        found is Ok <==> texts(list@).contains(key@),
        held <==> texts(list@).contains(key@),
        found matches Ok(at) ==> at < list@.len() && list@[at as int]@ == key@,
        found matches Err(at) ==> at <= list@.len() && (forall|i: int|
            0 <= i < at ==> precedes(#[trigger] texts(list@)[i], key@)) && (forall|i: int|
            at <= i < list@.len() ==> precedes(key@, #[trigger] texts(list@)[i])),
{
    if let Ok(at) = found {
        assert(texts(list@)[at as int] == key@);
    }
}

} // verus!
