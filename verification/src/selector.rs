//! Selecting traceable functions by key, exactly or with a `*` pattern.
//!
//! ```text
//! my_app::domain::db::*   matches  my_app::domain::db::users::insert
//!                         matches  my_app::domain::db::query
//!                         does NOT match  my_app::domain::db
//! *::db::*                matches  any db function, in any crate or module
//! *                       matches  everything
//! ```
//!
//! An exact selector that matches nothing is almost certainly a typo, so it
//! makes the whole selection fail. A pattern that matches nothing is only
//! reported.
use vstd::prelude::*;
use vstd::string::StringExecFns;

use crate::glob::{glob_matches, is_literal, lemma_glob_first_occurrence,
    lemma_glob_literal_prefix, lemma_glob_no_occurrence, lemma_glob_star_suffix,
    lemma_literal_matches_itself_only, occurs_at};
use crate::keys::{add_key, lemma_key_list_exists, lemma_strictly_sorted_unique, search,
    strictly_sorted, texts};
use crate::registry::{keys, site_names, Registry};
use crate::text::{code_points, precedes, trim, trimmed};

verus! {

/// Whether `selector` is a pattern, that is whether it holds a `*`, rather than
/// an exact key.
pub fn is_pattern(selector: &str) -> (pattern: bool)
    ensures
        pattern == selector@.contains('*'),
{
    let chars = code_points(selector);
    let end = literal_end(&chars, 0);
    proof {
        if end < chars@.len() {
            assert(chars@[end as int] == '*');
        } else if chars@.contains('*') {
            let i = choose|i: int| 0 <= i < chars@.len() && chars@[i] == '*';
            assert(chars@.subrange(0, end as int)[i] == '*');
        }
    }
    end < chars.len()
}

/// The position of the first `*` at or behind `from`, or the length.
fn literal_end(pattern: &Vec<char>, from: usize) -> (end: usize)
    requires
        from <= pattern@.len(),
    ensures
        from <= end <= pattern@.len(),
        is_literal(pattern@.subrange(from as int, end as int)),
        end < pattern@.len() ==> pattern@[end as int] == '*',
{
    let mut end: usize = from;
    while end < pattern.len() && pattern[end] != '*'
        invariant
            from <= end <= pattern@.len(),
            forall|i: int| from <= i < end ==> pattern@[i] != '*',
        decreases pattern@.len() - end,
    {
        end = end + 1;
    }
    end
}

/// Whether the part of `pattern` from `from` up to `to` stands in `key` at `at`.
fn stands_at(pattern: &Vec<char>, from: usize, to: usize, key: &Vec<char>, at: usize) -> (stands:
    bool)
    requires
        from <= to <= pattern@.len(),
    ensures
        stands == occurs_at(pattern@.subrange(from as int, to as int), key@, at as int),
{
    let ghost part = pattern@.subrange(from as int, to as int);
    let size = key.len();
    if at > size || to - from > size - at {
        return false;
    }
    let mut i: usize = 0;
    while i < to - from
        invariant
            from <= to <= pattern@.len(),
            at + (to - from) <= size == key@.len(),
            i <= to - from,
            part == pattern@.subrange(from as int, to as int),
            forall|k: int| 0 <= k < i ==> #[trigger] part[k] == key@[at + k],
        decreases to - from - i,
    {
        if pattern[from + i] != key[at + i] {
            assert(part[i as int] != key@.subrange(at as int, at + part.len())[i as int]);
            return false;
        }
        assert(part[i as int] == pattern@[from + i]);
        i = i + 1;
    }
    assert(key@.subrange(at as int, at + part.len()) =~= part);
    true
}

/// Whether `pattern` matches `key`: the parts between the `*`s have to stand in
/// the key one behind the other, the first at its front and the last at its end.
pub fn matches(pattern: &str, key: &str) -> (matched: bool)
    ensures
        matched == glob_matches(pattern@, key@),
{
    let p = code_points(pattern);
    let k = code_points(key);
    let size = p.len();
    let mut end = literal_end(&p, 0);
    let ghost first = p@.subrange(0, end as int);
    proof {
        assert(p@ =~= first + p@.skip(end as int));
        lemma_glob_literal_prefix(first, p@.skip(end as int), k@);
    }
    if !stands_at(&p, 0, end, &k, 0) {
        return false;
    }
    let mut done: usize = end;
    if end == p.len() {
        assert(p@.skip(end as int) =~= Seq::<char>::empty());
        return done == k.len();
    }
    loop
        invariant
            p@ == pattern@,
            k@ == key@,
            end < p@.len() == size,
            done <= k@.len(),
            p@[end as int] == '*',
            glob_matches(p@, k@) == glob_matches(p@.skip(end as int), k@.skip(done as int)),
        decreases p@.len() - end,
    {
        let from = end + 1;
        end = literal_end(&p, from);
        let ghost part = p@.subrange(from as int, end as int);
        let ghost left = k@.skip(done as int);
        let ghost rest = p@.skip(end as int);
        assert(p@.skip(from - 1) =~= seq!['*'] + part + rest);
        if end == p.len() {
            proof {
                assert(seq!['*'] + part + rest =~= seq!['*'] + part);
                lemma_glob_star_suffix(part, left);
            }
            if end - from > k.len() - done {
                return false;
            }
            let at: usize = k.len() - (end - from);
            assert(k@.subrange(at as int, at + part.len()) =~= left.subrange(
                left.len() - part.len(),
                left.len() as int,
            ));
            return stands_at(&p, from, end, &k, at);
        }
        let mut at: usize = done;
        while at < k.len() && !stands_at(&p, from, end, &k, at)
            invariant
                from <= end < p@.len(),
                done <= at <= k@.len(),
                part == p@.subrange(from as int, end as int),
                forall|i: int| done <= i < at ==> !occurs_at(part, k@, i),
            decreases k@.len() - at,
        {
            at = at + 1;
        }
        let found = stands_at(&p, from, end, &k, at);
        proof {
            assert forall|i: int| #[trigger] occurs_at(part, left, i) == (0 <= i && occurs_at(
                part,
                k@,
                done + i,
            )) by {
                if 0 <= i && done + i + part.len() <= k@.len() {
                    assert(left.subrange(i, i + part.len()) =~= k@.subrange(
                        done + i,
                        done + i + part.len(),
                    ));
                }
            }
            if found {
                assert(rest =~= seq!['*'] + rest.drop_first());
                lemma_glob_first_occurrence(part, rest.drop_first(), left, at - done);
                assert(left.skip(at - done + part.len()) =~= k@.skip(at + part.len()));
            } else {
                assert forall|i: int| !occurs_at(part, left, i) by {
                    if occurs_at(part, left, i) {
                        assert(occurs_at(part, k@, done + i));
                    }
                }
                lemma_glob_no_occurrence(part, rest, left);
            }
        }
        if !found {
            return false;
        }
        done = at + (end - from);
    }
}

/// What a list of selectors resolved to.
#[derive(Debug, Clone)]
pub struct Selection {
    /// The registry keys that matched, sorted, each once.
    pub keys: Vec<&'static str>,
    /// The patterns that matched no key.
    pub unmatched_patterns: Vec<String>,
}

impl Default for Selection {
    fn default() -> (selection: Self)
        ensures
            selection.keys@ == Seq::<&'static str>::empty(),
            selection.unmatched_patterns@ == Seq::<String>::empty(),
    {
        Selection { keys: Vec::new(), unmatched_patterns: Vec::new() }
    }
}

/// Exact selectors that match no traceable function.
#[derive(Debug, Clone)]
pub struct UnknownKeys {
    /// The unrecognized selectors.
    pub keys: Vec<String>,
}

/// The texts of a list of owned strings.
pub open spec fn owned_texts(strings: Seq<String>) -> Seq<Seq<char>> {
    strings.map_values(|s: String| s@)
}

/// The texts of the selectors of a list, without the white space around them.
pub open spec fn trimmed_texts(selectors: Seq<&str>) -> Seq<Seq<char>> {
    selectors.map_values(|s: &str| trimmed(s@))
}

/// Whether a trimmed selector selects `key`. A blank one selects nothing.
pub open spec fn selects(selector: Seq<char>, key: Seq<char>) -> bool {
    selector.len() > 0 && glob_matches(selector, key)
}

/// Whether any of the selectors selects `key`.
pub open spec fn any_selects(selectors: Seq<Seq<char>>, key: Seq<char>) -> bool {
    exists|i: int| 0 <= i < selectors.len() && selects(#[trigger] selectors[i], key)
}

/// Whether a trimmed selector is an exact key that is not among `keys`.
pub open spec fn is_unknown(selector: Seq<char>, keys: Seq<Seq<char>>) -> bool {
    selector.len() > 0 && !selector.contains('*') && !keys.contains(selector)
}

/// Whether a trimmed selector is a pattern that matches none of `keys`.
pub open spec fn is_unmatched(selector: Seq<char>, keys: Seq<Seq<char>>) -> bool {
    selector.contains('*') && forall|i: int|
        0 <= i < keys.len() ==> !glob_matches(selector, #[trigger] keys[i])
}

/// The exact selectors that are not among `keys`, in their order.
pub open spec fn unknown_among(selectors: Seq<Seq<char>>, keys: Seq<Seq<char>>) -> Seq<Seq<char>> {
    selectors.filter(|s: Seq<char>| is_unknown(s, keys))
}

/// The patterns that match none of `keys`, in their order.
pub open spec fn unmatched_among(
    selectors: Seq<Seq<char>>,
    keys: Seq<Seq<char>>,
) -> Seq<Seq<char>> {
    selectors.filter(|s: Seq<char>| is_unmatched(s, keys))
}

/// Whether `selection` is what `selectors` resolve to among `keys`.
pub open spec fn is_selection(
    selection: Selection,
    selectors: Seq<Seq<char>>,
    keys: Seq<Seq<char>>,
) -> bool {
    &&& strictly_sorted(texts(selection.keys@))
    &&& forall|key: Seq<char>| #[trigger]
        texts(selection.keys@).contains(key) <==> keys.contains(key) && any_selects(selectors, key)
    &&& owned_texts(selection.unmatched_patterns@) == unmatched_among(selectors, keys)
}

/// Resolves `selectors`, which are exact registry keys, `*` patterns or a mix,
/// against the keys of a registry.
///
/// White space around a selector does not count, and a blank selector is
/// skipped. Patterns that match nothing are reported in the selection.
///
/// # Errors
///
/// [`UnknownKeys`] if any exact selector is no registry key; it names every one
/// of them.
pub fn resolve(registry: &Registry, selectors: &[&str]) -> (resolved: Result<
    Selection,
    UnknownKeys,
>)
    ensures
        match resolved {
            Ok(selection) => unknown_among(trimmed_texts(selectors@), registry.keys()).len() == 0
                && is_selection(selection, trimmed_texts(selectors@), registry.keys()),
            Err(unknown) => unknown.keys@.len() > 0 && owned_texts(unknown.keys@) == unknown_among(
                trimmed_texts(selectors@),
                registry.keys(),
            ),
        },
{
    let list = keys(registry);
    let ghost all = registry.keys();
    let ghost wanted = trimmed_texts(selectors@);
    let mut matched: Vec<&'static str> = Vec::new();
    let mut unknown: Vec<String> = Vec::new();
    let mut unmatched_patterns: Vec<String> = Vec::new();
    let mut i: usize = 0;
    assert(wanted.take(0) =~= Seq::<Seq<char>>::empty());
    proof {
        reveal(Seq::filter);
    }
    assert(owned_texts(unknown@) =~= unknown_among(wanted.take(0), all));
    assert(owned_texts(unmatched_patterns@) =~= unmatched_among(wanted.take(0), all));
    while i < selectors.len()
        invariant
            i <= selectors@.len(),
            all == registry.keys(),
            texts(list@) == all,
            strictly_sorted(all),
            wanted == trimmed_texts(selectors@),
            strictly_sorted(texts(matched@)),
            forall|key: Seq<char>| #[trigger]
                texts(matched@).contains(key) <==> all.contains(key) && any_selects(
                    wanted.take(i as int),
                    key,
                ),
            owned_texts(unknown@) == unknown_among(wanted.take(i as int), all),
            owned_texts(unmatched_patterns@) == unmatched_among(wanted.take(i as int), all),
        decreases selectors@.len() - i,
    {
        let selector = trim(selectors[i]);
        let ghost seen = wanted.take(i as int);
        let ghost now = wanted.take(i + 1);
        proof {
            assert(wanted[i as int] == selector@);
            assert(now.drop_last() =~= seen);
            assert(now.last() == selector@);
            reveal(Seq::filter);
            lemma_any_selects_last(now);
        }
        if !selector.is_empty() {
            if is_pattern(selector) {
                let found = add_matches(&mut matched, &list, selector);
                if !found {
                    let ghost before = owned_texts(unmatched_patterns@);
                    unmatched_patterns.push(selector.to_owned());
                    assert(owned_texts(unmatched_patterns@) =~= before.push(selector@));
                }
            } else {
                proof {
                    assert forall|key: Seq<char>| #[trigger] selects(selector@, key) == (selector@
                        == key) by {
                        lemma_literal_matches_itself_only(selector@, key);
                    }
                }
                match search(&list, selector) {
                    Ok(at) => {
                        assert(texts(list@)[at as int] == selector@);
                        add_key(&mut matched, list[at]);
                    },
                    Err(_) => {
                        let ghost before = owned_texts(unknown@);
                        unknown.push(selector.to_owned());
                        assert(owned_texts(unknown@) =~= before.push(selector@));
                    },
                }
            }
        }
        i = i + 1;
    }
    assert(wanted.take(i as int) =~= wanted);
    if unknown.len() > 0 {
        return Err(UnknownKeys { keys: unknown });
    }
    assert(owned_texts(unknown@).len() == 0);
    Ok(Selection { keys: matched, unmatched_patterns })
}

/// The order of selectors, repeating one and adding blank ones make no difference: two lists
/// with the same selectors but for blank ones select the same keys, are refused for the
/// same unknown keys and leave the same patterns unmatched.
pub proof fn lemma_order_repeats_and_blanks_do_not_matter(
    a: Seq<Seq<char>>,
    b: Seq<Seq<char>>,
    keys: Seq<Seq<char>>,
)
    requires
        forall|s: Seq<char>|
            #![trigger a.contains(s)]
            #![trigger b.contains(s)]
            s.len() > 0 ==> (a.contains(s) <==> b.contains(s)),
    ensures
        forall|key: Seq<char>| #[trigger] any_selects(a, key) == any_selects(b, key),
        forall|s: Seq<char>|
            #![trigger unknown_among(a, keys).contains(s)]
            unknown_among(a, keys).contains(s) <==> unknown_among(b, keys).contains(s),
        unknown_among(a, keys).len() == 0 <==> unknown_among(b, keys).len() == 0,
        forall|s: Seq<char>|
            #![trigger unmatched_among(a, keys).contains(s)]
            unmatched_among(a, keys).contains(s) <==> unmatched_among(b, keys).contains(s),
        forall|x: Selection, y: Selection| #[trigger]
            is_selection(x, a, keys) && #[trigger] is_selection(y, b, keys) ==> texts(x.keys@)
                == texts(y.keys@),
{
    let unknown = |s: Seq<char>| is_unknown(s, keys);
    let unmatched = |s: Seq<char>| is_unmatched(s, keys);
    assert forall|key: Seq<char>| #[trigger] any_selects(a, key) == any_selects(b, key) by {
        if any_selects(a, key) {
            lemma_any_selects_as_well(a, b, key);
        }
        if any_selects(b, key) {
            lemma_any_selects_as_well(b, a, key);
        }
    }
    assert forall|s: Seq<char>|
        #![trigger unknown_among(a, keys).contains(s)]
        unknown_among(a, keys).contains(s) <==> unknown_among(b, keys).contains(s) by {
        lemma_filter_members(a, unknown, s);
        lemma_filter_members(b, unknown, s);
    }
    assert forall|s: Seq<char>|
        #![trigger unmatched_among(a, keys).contains(s)]
        unmatched_among(a, keys).contains(s) <==> unmatched_among(b, keys).contains(s) by {
        lemma_filter_members(a, unmatched, s);
        lemma_filter_members(b, unmatched, s);
    }
    if unknown_among(a, keys).len() > 0 {
        assert(unknown_among(a, keys).contains(unknown_among(a, keys)[0]));
    }
    if unknown_among(b, keys).len() > 0 {
        assert(unknown_among(a, keys).contains(unknown_among(b, keys)[0]));
    }
    assert forall|x: Selection, y: Selection| #[trigger]
        is_selection(x, a, keys) && #[trigger] is_selection(y, b, keys) implies texts(x.keys@)
        == texts(y.keys@) by {
        lemma_strictly_sorted_unique(texts(x.keys@), texts(y.keys@));
    }
}

proof fn lemma_any_selects_as_well(a: Seq<Seq<char>>, b: Seq<Seq<char>>, key: Seq<char>)
    requires
        any_selects(a, key),
        forall|s: Seq<char>| s.len() > 0 && #[trigger] a.contains(s) ==> b.contains(s),
    ensures
        any_selects(b, key),
{
    let i = choose|i: int| 0 <= i < a.len() && selects(#[trigger] a[i], key);
    assert(a.contains(a[i]));
    let k = choose|k: int| 0 <= k < b.len() && b[k] == a[i];
    assert(selects(b[k], key));
}

/// A filtered list holds the members that pass.
proof fn lemma_filter_members(
    list: Seq<Seq<char>>,
    pred: spec_fn(Seq<char>) -> bool,
    s: Seq<char>,
)
    ensures
        list.filter(pred).contains(s) <==> list.contains(s) && pred(s),
{
    if list.filter(pred).contains(s) {
        let k = choose|k: int| 0 <= k < list.filter(pred).len() && list.filter(pred)[k] == s;
        list.lemma_filter_pred(pred, k);
        list.lemma_filter_contains_rev(pred, s);
    }
    if list.contains(s) && pred(s) {
        let i = choose|i: int| 0 <= i < list.len() && list[i] == s;
        list.lemma_filter_contains(pred, i);
    }
}

/// What the last selector of a list adds to what the others select.
proof fn lemma_any_selects_last(selectors: Seq<Seq<char>>)
    requires
        selectors.len() > 0,
    ensures
        forall|key: Seq<char>| #[trigger]
            any_selects(selectors, key) == (any_selects(selectors.drop_last(), key) || selects(
                selectors.last(),
                key,
            )),
{
    let front = selectors.drop_last();
    assert forall|key: Seq<char>| #[trigger] any_selects(selectors, key) == (any_selects(front, key)
        || selects(selectors.last(), key)) by {
        if any_selects(front, key) {
            let i = choose|i: int| 0 <= i < front.len() && selects(#[trigger] front[i], key);
            assert(selects(selectors[i], key));
        }
        if selects(selectors.last(), key) {
            assert(selects(selectors[selectors.len() - 1], key));
        }
        if any_selects(selectors, key) && !selects(selectors.last(), key) {
            let i = choose|i: int| 0 <= i < selectors.len() && selects(#[trigger] selectors[i], key);
            assert(selects(front[i], key));
        }
    }
}

/// Adds every key of `list` that `pattern` matches, and says whether there was
/// one.
fn add_matches(
    matched: &mut Vec<&'static str>,
    list: &Vec<&'static str>,
    pattern: &str,
) -> (found: bool)
    requires
        strictly_sorted(texts(old(matched)@)),
    ensures
        strictly_sorted(texts(final(matched)@)),
        forall|key: Seq<char>| #[trigger]
            texts(final(matched)@).contains(key) <==> texts(old(matched)@).contains(key) || (texts(
                list@,
            ).contains(key) && glob_matches(pattern@, key)),
        found == exists|i: int|
            0 <= i < list@.len() && glob_matches(pattern@, #[trigger] texts(list@)[i]),
{
    let ghost all = texts(list@);
    let ghost before = texts(matched@);
    let mut found = false;
    let mut i: usize = 0;
    assert(all.take(0) =~= Seq::<Seq<char>>::empty());
    while i < list.len()
        invariant
            i <= list@.len(),
            all == texts(list@),
            strictly_sorted(texts(matched@)),
            forall|key: Seq<char>| #[trigger]
                texts(matched@).contains(key) <==> before.contains(key) || (all.take(
                    i as int,
                ).contains(key) && glob_matches(pattern@, key)),
            found == exists|k: int| 0 <= k < i && glob_matches(pattern@, #[trigger] all[k]),
        decreases list@.len() - i,
    {
        let ghost seen = all.take(i as int);
        let ghost now = all.take(i + 1);
        let key = list[i];
        assert(all[i as int] == key@);
        assert(now =~= seen.push(key@));
        assert forall|other: Seq<char>| #[trigger] now.contains(other) <==> seen.contains(other)
            || other == key@ by {
            if seen.contains(other) {
                let k = choose|k: int| 0 <= k < seen.len() && seen[k] == other;
                assert(now[k] == other);
            }
            if other == key@ {
                assert(now[i as int] == other);
            }
            if now.contains(other) && other != key@ {
                let k = choose|k: int| 0 <= k < now.len() && now[k] == other;
                assert(seen[k] == other);
            }
        }
        if matches(pattern, key) {
            add_key(matched, key);
            found = true;
        }
        i = i + 1;
    }
    assert(all.take(i as int) =~= all);
    found
}

impl UnknownKeys {
    /// The error in words: every unrecognized selector, separated by commas.
    pub fn message(&self) -> (message: String)
        ensures
            message@ == "unknown #[traceable] key(s): "@ + joined(owned_texts(self.keys@), ", "@),
    {
        let list = join(&self.keys, ", ");
        let head = String::from_str("unknown #[traceable] key(s): ");
        head.concat(list.as_str())
    }
}

/// Texts one behind the other, with a separator between each two.
pub open spec fn joined(parts: Seq<Seq<char>>, separator: Seq<char>) -> Seq<char>
    decreases parts.len(),
{
    if parts.len() == 0 {
        Seq::empty()
    } else if parts.len() == 1 {
        parts[0]
    } else {
        joined(parts.drop_last(), separator) + separator + parts.last()
    }
}

fn join(parts: &Vec<String>, separator: &str) -> (text: String)
    ensures
        text@ == joined(owned_texts(parts@), separator@),
{
    let ghost all = owned_texts(parts@);
    let mut text = String::new();
    let mut i: usize = 0;
    while i < parts.len()
        invariant
            i <= parts@.len(),
            all == owned_texts(parts@),
            text@ == joined(all.take(i as int), separator@),
        decreases parts@.len() - i,
    {
        assert(all[i as int] == parts@[i as int]@);
        assert(all.take(i + 1).drop_last() =~= all.take(i as int));
        if i > 0 {
            text.append(separator);
        }
        text.append(parts[i].as_str());
        assert(text@ =~= joined(all.take(i + 1), separator@));
        i = i + 1;
    }
    assert(all.take(i as int) =~= all);
    text
}

/// When selectors are refused: exactly if one of them, the white space around it aside, is not
/// blank, holds no `*` and is the name of no site. All such selectors are named, in their
/// order, and nothing else is.
pub proof fn lemma_refused_exactly_for_an_exact_selector_that_names_no_site(
    registry: Registry,
    selectors: &[&str],
    resolved: Result<Selection, UnknownKeys>,
)
    requires
        call_ensures(resolve, (&registry, selectors), resolved),
    ensures
        resolved is Err <==> exists|i: int|
            0 <= i < selectors@.len() && {
                let s = trimmed((#[trigger] selectors@[i])@);
                &&& s.len() > 0
                &&& !s.contains('*')
                &&& forall|k: int|
                    0 <= k < registry.sites@.len() ==> (#[trigger] registry.sites@[k]).name@ != s
            },
        resolved matches Err(unknown) ==> owned_texts(unknown.keys@) == selectors@.map_values(
            |s: &str| trimmed(s@),
        ).filter(
            |s: Seq<char>|
                s.len() > 0 && !s.contains('*') && !site_names(registry@).contains(s),
        ),
{
    let wanted = trimmed_texts(selectors@);
    let all = registry.keys();
    let names = site_names(registry@);
    let unknown = |s: Seq<char>| is_unknown(s, all);
    lemma_key_list_exists(names);
    assert forall|s: Seq<char>| #[trigger] all.contains(s) <==> exists|k: int|
        0 <= k < registry.sites@.len() && (#[trigger] registry.sites@[k]).name@ == s by {
        if names.contains(s) {
            let k = choose|k: int| 0 <= k < names.len() && names[k] == s;
            assert(registry.sites@[k].name@ == s);
        }
        if exists|k: int| 0 <= k < registry.sites@.len() && (#[trigger] registry.sites@[k]).name@
            == s {
            let k = choose|k: int|
                0 <= k < registry.sites@.len() && (#[trigger] registry.sites@[k]).name@ == s;
            assert(names[k] == s);
        }
    }
    if resolved is Err {
        let list = unknown_among(wanted, all);
        assert(owned_texts(resolved->Err_0.keys@).len() > 0);
        assert(list.contains(list[0]));
        lemma_filter_members(wanted, unknown, list[0]);
        let i = choose|i: int| 0 <= i < wanted.len() && wanted[i] == list[0];
        assert(trimmed(selectors@[i]@) == list[0]);
        let direct = |s: Seq<char>| s.len() > 0 && !s.contains('*') && !names.contains(s);
        assert forall|s: Seq<char>| unknown(s) == #[trigger] direct(s) by {
            assert(all.contains(s) <==> names.contains(s));
        }
        lemma_same_filter(wanted, unknown, direct);
        assert(wanted =~= selectors@.map_values(|s: &str| trimmed(s@)));
    }
    if exists|i: int|
        0 <= i < selectors@.len() && {
            let s = trimmed((#[trigger] selectors@[i])@);
            &&& s.len() > 0
            &&& !s.contains('*')
            &&& forall|k: int|
                0 <= k < registry.sites@.len() ==> (#[trigger] registry.sites@[k]).name@ != s
        } {
        let i = choose|i: int|
            0 <= i < selectors@.len() && {
                let s = trimmed((#[trigger] selectors@[i])@);
                &&& s.len() > 0
                &&& !s.contains('*')
                &&& forall|k: int|
                    0 <= k < registry.sites@.len() ==> (#[trigger] registry.sites@[k]).name@ != s
            };
        let s = trimmed(selectors@[i]@);
        assert(wanted[i] == s);
        assert(!all.contains(s));
        lemma_filter_members(wanted, unknown, s);
        assert(unknown_among(wanted, all).contains(s));
    }
}

/// Filters that let the same pass leave the same.
proof fn lemma_same_filter(
    list: Seq<Seq<char>>,
    p: spec_fn(Seq<char>) -> bool,
    q: spec_fn(Seq<char>) -> bool,
)
    requires
        forall|s: Seq<char>| p(s) == #[trigger] q(s),
    ensures
        list.filter(p) == list.filter(q),
    decreases list.len(),
{
    reveal(Seq::filter);
    if list.len() > 0 {
        lemma_same_filter(list.drop_last(), p, q);
        assert(p(list.last()) == q(list.last()));
    } else {
        assert(list.filter(p) =~= list.filter(q));
    }
}

/// What a selection holds: the names of sites that some selector, the white space around it
/// aside, is not blank and matches, sorted and each once. Every exact selector is among them,
/// and the patterns that match no site are reported, in their order.
pub proof fn lemma_selected_exactly_what_a_selector_matches(
    registry: Registry,
    selectors: &[&str],
    selection: Selection,
    key: Seq<char>,
)
    requires
        call_ensures(resolve, (&registry, selectors), Ok(selection)),
    ensures
        texts(selection.keys@).contains(key) <==> site_names(registry@).contains(key) && (exists|
            i: int,
        |
            0 <= i < selectors@.len() && trimmed((#[trigger] selectors@[i])@).len() > 0
                && glob_matches(trimmed(selectors@[i]@), key)),
        forall|i: int, j: int|
            0 <= i < j < selection.keys@.len() ==> precedes(
                (#[trigger] selection.keys@[i])@,
                (#[trigger] selection.keys@[j])@,
            ),
        forall|i: int|
            0 <= i < selectors@.len() && trimmed((#[trigger] selectors@[i])@).len() > 0
                && !trimmed(selectors@[i]@).contains('*') ==> texts(selection.keys@).contains(
                trimmed(selectors@[i]@),
            ),
        owned_texts(selection.unmatched_patterns@) == selectors@.map_values(
            |s: &str| trimmed(s@),
        ).filter(
            |s: Seq<char>|
                s.contains('*') && forall|k: int|
                    0 <= k < registry.sites@.len() ==> !glob_matches(
                        s,
                        (#[trigger] registry.sites@[k]).name@,
                    ),
        ),
{
    let wanted = trimmed_texts(selectors@);
    let all = registry.keys();
    let names = site_names(registry@);
    lemma_key_list_exists(names);
    assert(all.contains(key) <==> names.contains(key));
    if any_selects(wanted, key) {
        let i = choose|i: int| 0 <= i < wanted.len() && selects(#[trigger] wanted[i], key);
        assert(trimmed(selectors@[i]@) == wanted[i]);
    }
    if exists|i: int|
        0 <= i < selectors@.len() && trimmed((#[trigger] selectors@[i])@).len() > 0
            && glob_matches(trimmed(selectors@[i]@), key) {
        let i = choose|i: int|
            0 <= i < selectors@.len() && trimmed((#[trigger] selectors@[i])@).len() > 0
                && glob_matches(trimmed(selectors@[i]@), key);
        assert(selects(wanted[i], key));
    }
    assert forall|i: int, j: int| 0 <= i < j < selection.keys@.len() implies precedes(
        (#[trigger] selection.keys@[i])@,
        (#[trigger] selection.keys@[j])@,
    ) by {
        let list = texts(selection.keys@);
        assert(list[i] == selection.keys@[i]@ && list[j] == selection.keys@[j]@);
    }
    assert forall|i: int|
        0 <= i < selectors@.len() && trimmed((#[trigger] selectors@[i])@).len() > 0 && !trimmed(
            selectors@[i]@,
        ).contains('*') implies texts(selection.keys@).contains(trimmed(selectors@[i]@)) by {
        let s = trimmed(selectors@[i]@);
        assert(wanted[i] == s);
        assert(wanted.contains(s));
        lemma_filter_members(wanted, |t: Seq<char>| is_unknown(t, all), s);
        if is_unknown(s, all) {
            assert(unknown_among(wanted, all).contains(s));
        }
        lemma_literal_matches_itself_only(s, s);
        assert(selects(wanted[i], s));
    }
    let unmatched = |s: Seq<char>| is_unmatched(s, all);
    let direct = |s: Seq<char>|
        s.contains('*') && forall|k: int|
            0 <= k < registry.sites@.len() ==> !glob_matches(
                s,
                (#[trigger] registry.sites@[k]).name@,
            );
    assert forall|s: Seq<char>| unmatched(s) == #[trigger] direct(s) by {
        if unmatched(s) {
            assert forall|k: int| 0 <= k < registry.sites@.len() implies !glob_matches(
                s,
                (#[trigger] registry.sites@[k]).name@,
            ) by {
                let name = registry.sites@[k].name@;
                assert(names[k] == name);
                assert(names.contains(name));
                let at = choose|at: int| 0 <= at < all.len() && all[at] == name;
                assert(!glob_matches(s, all[at]));
            }
        }
        if direct(s) {
            assert forall|i: int| 0 <= i < all.len() implies !glob_matches(
                s,
                #[trigger] all[i],
            ) by {
                assert(all.contains(all[i]));
                let k = choose|k: int| 0 <= k < names.len() && names[k] == all[i];
                assert(registry.sites@[k].name@ == all[i]);
            }
        }
    }
    lemma_same_filter(wanted, unmatched, direct);
    assert(wanted =~= selectors@.map_values(|s: &str| trimmed(s@)));
}

/// A pattern is what holds a `*`, and matching is what the meaning of patterns says.
pub proof fn lemma_patterns_and_matching(
    selector: &str,
    key: &str,
    pattern: bool,
    matched: bool,
)
    requires
        call_ensures(is_pattern, (selector,), pattern),
        call_ensures(matches, (selector, key), matched),
    ensures
        pattern <==> exists|i: int| 0 <= i < selector@.len() && #[trigger] selector@[i] == '*',
        matched <==> glob_matches(selector@, key@),
        !pattern ==> (matched <==> selector@ == key@),
{
    if selector@.contains('*') {
        let i = choose|i: int| 0 <= i < selector@.len() && selector@[i] == '*';
        assert(selector@[i] == '*');
    }
    if !selector@.contains('*') {
        lemma_literal_matches_itself_only(selector@, key@);
    }
}

/// Texts of owned strings are the text of each, in their order, and joining texts puts the
/// separator between each two: a text more stands behind the others and one separator.
pub proof fn lemma_joining_puts_separators_between(
    strings: Seq<String>,
    parts: Seq<Seq<char>>,
    part: Seq<char>,
    separator: Seq<char>,
)
    ensures
        owned_texts(strings).len() == strings.len(),
        forall|i: int| 0 <= i < strings.len() ==> #[trigger] owned_texts(strings)[i] == strings[i]@,
        joined(Seq::empty(), separator).len() == 0,
        joined(seq![part], separator) == part,
        parts.len() > 0 ==> joined(parts.push(part), separator) == joined(parts, separator)
            + separator + part,
{
    assert(parts.push(part).drop_last() =~= parts);
}

/// The refusal names every unrecognized selector, with a comma and a space between each two.
pub proof fn lemma_the_refusal_names_every_selector(unknown: UnknownKeys, message: String)
    requires
        call_ensures(UnknownKeys::message, (&unknown,), message),
    ensures
        message@ == "unknown #[traceable] key(s): "@ + joined(
            unknown.keys@.map_values(|s: String| s@),
            ", "@,
        ),
{
    assert(owned_texts(unknown.keys@) =~= unknown.keys@.map_values(|s: String| s@));
}

} // verus!
