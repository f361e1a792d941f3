//! The envelope that a context carries: for each slot the context whose span is
//! the active one of that slot.
use opentelemetry::Context;
use smallvec::SmallVec;
use vstd::prelude::*;

use crate::instrumentation::tracer::{current_span, has_span};

verus! {

/// The active spans of the in-process instrumentations, one entry per slot. It
/// travels inside a context.
#[verifier::external_body]
pub struct InProcessParents {
    entries: SmallVec<[(u8, Context); 4]>,
}

/// The active spans of the named instrumentations beside the default one. It
/// travels inside a context too, apart from [`InProcessParents`].
pub struct MultiInstrumentState {
    /// The active span of each slot.
    pub parents: InProcessParents,
}

/// The entries of an envelope, in order.
pub uninterp spec fn parent_items(parents: InProcessParents) -> Seq<(u8, opentelemetry::Context)>;

/// The entries of the [`InProcessParents`] that a context carries.
pub uninterp spec fn carried_parents(cx: opentelemetry::Context) -> Option<
    Seq<(u8, opentelemetry::Context)>,
>;

/// The entries of the [`MultiInstrumentState`] that a context carries.
pub uninterp spec fn carried_state(cx: opentelemetry::Context) -> Option<
    Seq<(u8, opentelemetry::Context)>,
>;

impl InProcessParents {
    /// `SmallVec::new`: no entry.
    #[verifier::external_body]
    pub(crate) fn new() -> (parents: Self)
        ensures
            parent_items(parents) == Seq::<(u8, Context)>::empty(),
    {
        InProcessParents { entries: SmallVec::new() }
    }

    /// `SmallVec::len`: the number of entries.
    #[verifier::external_body]
    pub(crate) fn len(&self) -> (count: usize)
        ensures
            count == parent_items(*self).len(),
    {
        self.entries.len()
    }

    /// Indexing of `SmallVec`: the entry at position `at`, here its slot and its
    /// context by reference.
    #[verifier::external_body]
    pub(crate) fn entry(&self, at: usize) -> (entry: (u8, &Context))
        requires
            at < parent_items(*self).len(),
        ensures
            entry.0 == parent_items(*self)[at as int].0,
            *entry.1 == parent_items(*self)[at as int].1,
    {
        (self.entries[at].0, &self.entries[at].1)
    }

    /// Mutable indexing of `SmallVec`: the context of the entry at position `at`
    /// is replaced, all else stays.
    #[verifier::external_body]
    pub(crate) fn set_context(&mut self, at: usize, cx: Context)
        requires
            at < parent_items(*old(self)).len(),
        ensures
            parent_items(*final(self)) == parent_items(*old(self)).update(
                at as int,
                (parent_items(*old(self))[at as int].0, cx),
            ),
    {
        self.entries[at].1 = cx;
    }

    /// `SmallVec::push`: a new entry behind the others.
    #[verifier::external_body]
    pub(crate) fn push(&mut self, slot: u8, cx: Context)
        ensures
            parent_items(*final(self)) == parent_items(*old(self)).push((slot, cx)),
    {
        self.entries.push((slot, cx));
    }
}

/// `Context::get` for [`InProcessParents`]: a copy of the envelope that the context
/// carries, if it carries one.
#[verifier::external_body]
pub(crate) fn get_parents(cx: &Context) -> (parents: Option<InProcessParents>)
    ensures
        match parents {
            Some(p) => carried_parents(*cx) == Some(parent_items(p)),
            None => carried_parents(*cx) is None,
        },
{
    match cx.get::<InProcessParents>() {
        Some(parents) => Some(InProcessParents { entries: parents.entries.clone() }),
        None => None,
    }
}

/// `Context::with_value` for [`InProcessParents`]: a copy of the context that
/// carries this envelope in place of the one it had. Its span and its other values
/// stay.
#[verifier::external_body]
pub(crate) fn with_parents(cx: &Context, parents: InProcessParents) -> (with: Context)
    ensures
        carried_parents(with) == Some(parent_items(parents)),
        carried_state(with) == carried_state(*cx),
        has_span(with) == has_span(*cx),
        current_span(with) == current_span(*cx),
{
    cx.with_value(parents)
}

/// `Context::get` for [`MultiInstrumentState`]: a copy of the state that the context
/// carries, if it carries one.
#[verifier::external_body]
pub(crate) fn get_state(cx: &Context) -> (state: Option<MultiInstrumentState>)
    ensures
        match state {
            Some(s) => carried_state(*cx) == Some(parent_items(s.parents)),
            None => carried_state(*cx) is None,
        },
{
    match cx.get::<MultiInstrumentState>() {
        Some(state) => Some(
            MultiInstrumentState {
                parents: InProcessParents { entries: state.parents.entries.clone() },
            },
        ),
        None => None,
    }
}

/// `Context::with_value` for [`MultiInstrumentState`]: a copy of the context that
/// carries this state in place of the one it had. Its span and its other values
/// stay.
#[verifier::external_body]
pub(crate) fn with_state(cx: &Context, state: MultiInstrumentState) -> (with: Context)
    ensures
        carried_state(with) == Some(parent_items(state.parents)),
        carried_parents(with) == carried_parents(*cx),
        has_span(with) == has_span(*cx),
        current_span(with) == current_span(*cx),
{
    cx.with_value(state)
}

/// The entries that a context carries, or none.
pub open spec fn entries_or_none(carried: Option<Seq<(u8, Context)>>) -> Seq<(u8, Context)> {
    match carried {
        Some(items) => items,
        None => Seq::empty(),
    }
}

/// The active context of a slot: that of the first entry for it.
pub open spec fn parent_of(items: Seq<(u8, Context)>, slot: u8) -> Option<Context>
    decreases items.len(),
{
    if items.len() == 0 {
        None
    } else if items.first().0 == slot {
        Some(items.first().1)
    } else {
        parent_of(items.drop_first(), slot)
    }
}

/// Whether `at` is the position of the first entry for a slot.
pub open spec fn is_first_entry(items: Seq<(u8, Context)>, slot: u8, at: int) -> bool {
    &&& 0 <= at < items.len()
    &&& items[at].0 == slot
    &&& forall|i: int| 0 <= i < at ==> (#[trigger] items[i]).0 != slot
}

/// The entries with `cx` as the active context of a slot: in the first entry for it, or
/// else in a new one behind the others.
pub open spec fn with_parent(items: Seq<(u8, Context)>, slot: u8, cx: Context) -> Seq<
    (u8, Context),
>
    decreases items.len(),
{
    if items.len() == 0 {
        seq![(slot, cx)]
    } else if items.first().0 == slot {
        items.update(0, (slot, cx))
    } else {
        seq![items.first()] + with_parent(items.drop_first(), slot, cx)
    }
}

/// Whether each slot occurs once.
pub open spec fn slots_distinct(items: Seq<(u8, Context)>) -> bool {
    forall|i: int, j: int|
        0 <= i < j < items.len() ==> (#[trigger] items[i]).0 != (#[trigger] items[j]).0
}

/// Whether the entries `after` are those `before`, but for the contexts of the slots in
/// `active`: every entry stays where it is, the first one for an active slot may have
/// another context, and behind them stands one new entry for each active slot that had
/// none, in ascending order.
pub open spec fn grown(
    active: Set<u8>,
    before: Seq<(u8, Context)>,
    after: Seq<(u8, Context)>,
) -> bool {
    &&& before.len() <= after.len()
    &&& forall|i: int| 0 <= i < before.len() ==> (#[trigger] after[i]).0 == before[i].0
    &&& forall|i: int|
        0 <= i < before.len() && !(active.contains(before[i].0) && is_first_entry(
            before,
            before[i].0,
            i,
        )) ==> #[trigger] after[i] == before[i]
    &&& forall|i: int|
        before.len() <= i < after.len() ==> active.contains((#[trigger] after[i]).0)
            && is_first_entry(after, after[i].0, i)
    &&& forall|i: int, j: int|
        before.len() <= i < j < after.len() ==> (#[trigger] after[i]).0 < (#[trigger] after[j]).0
}

proof fn lemma_with_parent_at(items: Seq<(u8, Context)>, slot: u8, cx: Context, at: int)
    requires
        is_first_entry(items, slot, at),
    ensures
        with_parent(items, slot, cx) == items.update(at, (slot, cx)),
    decreases items.len(),
{
    if at > 0 {
        assert(items[0].0 != slot);
        let rest = items.drop_first();
        assert forall|i: int| 0 <= i < at - 1 implies (#[trigger] rest[i]).0 != slot by {
            assert(rest[i] == items[i + 1]);
        }
        lemma_with_parent_at(rest, slot, cx, at - 1);
        assert(seq![items[0]] + rest.update(at - 1, (slot, cx)) =~= items.update(at, (slot, cx)));
    }
}

proof fn lemma_with_parent_new(items: Seq<(u8, Context)>, slot: u8, cx: Context)
    requires
        forall|i: int| 0 <= i < items.len() ==> (#[trigger] items[i]).0 != slot,
    ensures
        with_parent(items, slot, cx) == items.push((slot, cx)),
    decreases items.len(),
{
    if items.len() == 0 {
        assert(seq![(slot, cx)] =~= items.push((slot, cx)));
    } else {
        assert(items[0].0 != slot);
        let rest = items.drop_first();
        assert forall|i: int| 0 <= i < rest.len() implies (#[trigger] rest[i]).0 != slot by {
            assert(rest[i] == items[i + 1]);
        }
        lemma_with_parent_new(rest, slot, cx);
        assert(seq![items[0]] + rest.push((slot, cx)) =~= items.push((slot, cx)));
    }
}

/// One more slot has its turn, behind those that had theirs.
pub proof fn lemma_grown_by_one(
    active: Set<u8>,
    before: Seq<(u8, Context)>,
    items: Seq<(u8, Context)>,
    slot: u8,
    cx: Context,
)
    requires
        grown(active, before, items),
        forall|other: u8| #[trigger] active.contains(other) ==> other < slot,
    ensures
        grown(active.insert(slot), before, with_parent(items, slot, cx)),
{
    let more = active.insert(slot);
    let after = with_parent(items, slot, cx);
    if exists|at: int| is_first_entry(items, slot, at) {
        let at = choose|at: int| is_first_entry(items, slot, at);
        lemma_with_parent_at(items, slot, cx, at);
        if at >= before.len() {
            assert(active.contains(items[at].0));
        }
        assert(before[at].0 == slot) by {
            assert(items[at].0 == before[at].0);
        }
        assert(is_first_entry(before, slot, at)) by {
            assert forall|i: int| 0 <= i < at implies (#[trigger] before[i]).0 != slot by {
                assert(items[i].0 == before[i].0);
            }
        }
        assert forall|i: int|
            0 <= i < before.len() && !(more.contains(before[i].0) && is_first_entry(
                before,
                before[i].0,
                i,
            )) implies #[trigger] after[i] == before[i] by {
            assert(items[i] == before[i]);
        }
        assert forall|i: int| before.len() <= i < after.len() implies more.contains(
            (#[trigger] after[i]).0,
        ) && is_first_entry(after, after[i].0, i) by {
            assert(after[i] == items[i]);
            assert forall|k: int| 0 <= k < i implies (#[trigger] after[k]).0 != after[i].0 by {
                assert(after[k].0 == items[k].0);
            }
        }
        assert forall|i: int, j: int| before.len() <= i < j < after.len() implies (
        #[trigger] after[i]).0 < (#[trigger] after[j]).0 by {
            assert(after[i] == items[i] && after[j] == items[j]);
        }
    } else {
        assert forall|i: int| 0 <= i < items.len() implies (#[trigger] items[i]).0 != slot by {
            if items[i].0 == slot {
                let at = lemma_first_entry_exists(items, slot, i);
            }
        }
        lemma_with_parent_new(items, slot, cx);
        assert forall|i: int|
            0 <= i < before.len() && !(more.contains(before[i].0) && is_first_entry(
                before,
                before[i].0,
                i,
            )) implies #[trigger] after[i] == before[i] by {
            assert(items[i] == before[i]);
        }
        assert forall|i: int| before.len() <= i < after.len() implies more.contains(
            (#[trigger] after[i]).0,
        ) && is_first_entry(after, after[i].0, i) by {
            assert forall|k: int| 0 <= k < i implies (#[trigger] after[k]).0 != after[i].0 by {
                assert(after[k] == items[k]);
                if i < items.len() {
                    assert(after[i] == items[i]);
                }
            }
            if i < items.len() {
                assert(after[i] == items[i]);
            }
        }
        assert forall|i: int, j: int| before.len() <= i < j < after.len() implies (
        #[trigger] after[i]).0 < (#[trigger] after[j]).0 by {
            assert(after[i] == items[i]);
            assert(active.contains(items[i].0));
            if j < items.len() {
                assert(after[j] == items[j]);
            }
        }
    }
}

proof fn lemma_first_entry_exists(items: Seq<(u8, Context)>, slot: u8, from: int) -> (at: int)
    requires
        0 <= from < items.len(),
        items[from].0 == slot,
    ensures
        is_first_entry(items, slot, at),
    decreases from,
{
    if exists|i: int| 0 <= i < from && (#[trigger] items[i]).0 == slot {
        let i = choose|i: int| 0 <= i < from && (#[trigger] items[i]).0 == slot;
        lemma_first_entry_exists(items, slot, i)
    } else {
        from
    }
}

/// Where each slot occurs once, it still does after slots had their turns.
pub proof fn lemma_grown_stays_distinct(
    active: Set<u8>,
    before: Seq<(u8, Context)>,
    after: Seq<(u8, Context)>,
)
    requires
        grown(active, before, after),
        slots_distinct(before),
    ensures
        slots_distinct(after),
{
    assert forall|i: int, j: int| 0 <= i < j < after.len() implies (#[trigger] after[i]).0 != (
    #[trigger] after[j]).0 by {
        if j < before.len() {
            assert(after[i].0 == before[i].0 && after[j].0 == before[j].0);
        } else {
            assert(is_first_entry(after, after[j].0, j));
        }
    }
}

proof fn lemma_parent_at(items: Seq<(u8, Context)>, slot: u8, at: int)
    requires
        is_first_entry(items, slot, at),
    ensures
        parent_of(items, slot) == Some(items[at].1),
    decreases items.len(),
{
    if at > 0 {
        assert(items[0].0 != slot);
        let rest = items.drop_first();
        assert forall|i: int| 0 <= i < at - 1 implies (#[trigger] rest[i]).0 != slot by {
            assert(rest[i] == items[i + 1]);
        }
        lemma_parent_at(rest, slot, at - 1);
    }
}

proof fn lemma_no_parent(items: Seq<(u8, Context)>, slot: u8)
    requires
        forall|i: int| 0 <= i < items.len() ==> (#[trigger] items[i]).0 != slot,
    ensures
        parent_of(items, slot) is None,
    decreases items.len(),
{
    if items.len() > 0 {
        assert(items[0].0 != slot);
        let rest = items.drop_first();
        assert forall|i: int| 0 <= i < rest.len() implies (#[trigger] rest[i]).0 != slot by {
            assert(rest[i] == items[i + 1]);
        }
        lemma_no_parent(rest, slot);
    }
}

proof fn lemma_parent_after_set(items: Seq<(u8, Context)>, at: int, cx: Context, slot: u8)
    requires
        0 <= at < items.len(),
        items[at].0 != slot,
    ensures
        parent_of(items.update(at, (items[at].0, cx)), slot) == parent_of(items, slot),
    decreases items.len(),
{
    let after = items.update(at, (items[at].0, cx));
    if at == 0 {
        assert(after.drop_first() =~= items.drop_first());
    } else {
        let rest = items.drop_first();
        assert(rest[at - 1] == items[at]);
        assert(after.drop_first() =~= rest.update(at - 1, (rest[at - 1].0, cx)));
        lemma_parent_after_set(rest, at - 1, cx, slot);
    }
}

proof fn lemma_parent_after_push(items: Seq<(u8, Context)>, entry: (u8, Context), slot: u8)
    ensures
        parent_of(items.push(entry), slot) == match parent_of(items, slot) {
            Some(cx) => Some(cx),
            None => if entry.0 == slot {
                Some(entry.1)
            } else {
                None
            },
        },
    decreases items.len(),
{
    if items.len() == 0 {
        reveal_with_fuel(parent_of, 2);
        assert(items.push(entry).drop_first() =~= Seq::<(u8, Context)>::empty());
    } else {
        assert(items.push(entry).drop_first() =~= items.drop_first().push(entry));
        lemma_parent_after_push(items.drop_first(), entry, slot);
    }
}

impl InProcessParents {
    /// The position of the first entry for a slot.
    pub fn position(&self, slot: u8) -> (found: Option<usize>)
        ensures
            match found {
                Some(at) => {
                    &&& is_first_entry(parent_items(*self), slot, at as int)
                    &&& parent_of(parent_items(*self), slot) == Some(
                        parent_items(*self)[at as int].1,
                    )
                },
                None => {
                    &&& parent_of(parent_items(*self), slot) is None
                    &&& forall|i: int|
                        0 <= i < parent_items(*self).len() ==> (#[trigger] parent_items(*self)[i]).0
                            != slot
                },
            },
    {
        let count = self.len();
        let mut i: usize = 0;
        while i < count
            invariant
                i <= count,
                count == parent_items(*self).len(),
                forall|k: int| 0 <= k < i ==> (#[trigger] parent_items(*self)[k]).0 != slot,
            decreases count - i,
        {
            if self.entry(i).0 == slot {
                proof {
                    lemma_parent_at(parent_items(*self), slot, i as int);
                }
                return Some(i);
            }
            i = i + 1;
        }
        proof {
            lemma_no_parent(parent_items(*self), slot);
        }
        None
    }

    /// A copy of the active context of a slot.
    pub fn parent(&self, slot: u8) -> (parent: Option<Context>)
        ensures
            parent == parent_of(parent_items(*self), slot),
    {
        match self.position(slot) {
            Some(at) => Some(self.entry(at).1.clone()),
            None => None,
        }
    }

    /// Makes `cx` the active context of a slot: in the first entry for it, or else in a
    /// new one. All other entries stay, and the other slots keep their contexts.
    pub fn advance(&mut self, slot: u8, cx: Context)
        ensures
            parent_items(*final(self)) == with_parent(parent_items(*old(self)), slot, cx),
            slots_distinct(parent_items(*old(self))) ==> slots_distinct(
                parent_items(*final(self)),
            ),
            parent_of(parent_items(*final(self)), slot) == Some(cx),
            forall|other: u8|
                other != slot ==> #[trigger] parent_of(parent_items(*final(self)), other)
                    == parent_of(parent_items(*old(self)), other),
    {
        let ghost before = parent_items(*self);
        match self.position(slot) {
            Some(at) => {
                self.set_context(at, cx);
                proof {
                    let after = parent_items(*self);
                    lemma_with_parent_at(before, slot, cx, at as int);
                    assert(is_first_entry(after, slot, at as int)) by {
                        assert forall|i: int| 0 <= i < at implies (#[trigger] after[i]).0 != slot by {
                            assert(after[i] == before[i]);
                        }
                    }
                    lemma_parent_at(after, slot, at as int);
                    assert forall|other: u8| other != slot implies #[trigger] parent_of(after, other)
                        == parent_of(before, other) by {
                        lemma_parent_after_set(before, at as int, cx, other);
                    }
                }
            },
            None => {
                self.push(slot, cx);
                proof {
                    lemma_with_parent_new(before, slot, cx);
                    assert forall|other: u8| #[trigger]
                        parent_of(parent_items(*self), other) == (if other == slot {
                            Some(cx)
                        } else {
                            parent_of(before, other)
                        }) by {
                        lemma_parent_after_push(before, (slot, cx), other);
                    }
                }
            },
        }
    }
}

/// Whether `with` may be `cx` with an envelope of these entries.
pub closed spec fn carries_parents(cx: Context, items: Seq<(u8, Context)>, with: Context) -> bool {
    exists|parents: InProcessParents|
        parent_items(parents) == items && #[trigger] call_ensures(
            with_parents,
            (&cx, parents),
            with,
        )
}

/// Whether `with` may be `cx` with a state of these entries.
pub closed spec fn carries_state(cx: Context, items: Seq<(u8, Context)>, with: Context) -> bool {
    exists|state: MultiInstrumentState|
        parent_items(state.parents) == items && #[trigger] call_ensures(
            with_state,
            (&cx, state),
            with,
        )
}

/// A context with an envelope carries its entries, and it has the span and the
/// other values of the context that it was made from.
pub proof fn lemma_carries_parents(cx: Context, items: Seq<(u8, Context)>, with: Context)
    requires
        carries_parents(cx, items, with),
    ensures
        carried_parents(with) == Some(items),
        carried_state(with) == carried_state(cx),
        has_span(with) == has_span(cx),
        current_span(with) == current_span(cx),
{
}

/// A context with a state carries its entries, and it has the span and the other
/// values of the context that it was made from.
pub proof fn lemma_carries_state(cx: Context, items: Seq<(u8, Context)>, with: Context)
    requires
        carries_state(cx, items, with),
    ensures
        carried_state(with) == Some(items),
        carried_parents(with) == carried_parents(cx),
        has_span(with) == has_span(cx),
        current_span(with) == current_span(cx),
{
}

/// The envelope that a context carries, or an empty one.
pub(crate) fn parents_or_new(cx: &Context) -> (parents: InProcessParents)
    ensures
        parent_items(parents) == entries_or_none(carried_parents(*cx)),
{
    match get_parents(cx) {
        Some(parents) => parents,
        None => InProcessParents::new(),
    }
}

/// The state that a context carries, or an empty one.
pub(crate) fn state_or_new(cx: &Context) -> (state: MultiInstrumentState)
    ensures
        parent_items(state.parents) == entries_or_none(carried_state(*cx)),
{
    match get_state(cx) {
        Some(state) => state,
        None => MultiInstrumentState { parents: InProcessParents::new() },
    }
}

/// Puts an envelope into a copy of a context.
pub(crate) fn attach_parents(cx: &Context, parents: InProcessParents) -> (with: Context)
    ensures
        carries_parents(*cx, parent_items(parents), with),
{
    let ghost envelope = parents;
    let with = with_parents(cx, parents);
    assert(call_ensures(with_parents, (cx, envelope), with));
    with
}

/// Puts a state into a copy of a context.
pub(crate) fn attach_state(cx: &Context, state: MultiInstrumentState) -> (with: Context)
    ensures
        carries_state(*cx, parent_items(state.parents), with),
{
    let ghost envelope = state;
    let with = with_state(cx, state);
    assert(call_ensures(with_state, (cx, envelope), with));
    with
}

/// The active context of a slot is that of the first entry for it, and a slot without an
/// entry has none.
pub proof fn lemma_the_first_entry_decides(items: Seq<(u8, Context)>, slot: u8)
    ensures
        parent_of(items, slot) is None <==> (forall|i: int|
            0 <= i < items.len() ==> (#[trigger] items[i]).0 != slot),
        forall|at: int|
            0 <= at < items.len() && (#[trigger] items[at]).0 == slot && (forall|i: int|
                0 <= i < at ==> (#[trigger] items[i]).0 != slot) ==> parent_of(items, slot)
                == Some(items[at].1),
    decreases items.len(),
{
    if items.len() > 0 {
        let rest = items.drop_first();
        lemma_the_first_entry_decides(rest, slot);
        assert forall|i: int| 0 <= i < rest.len() implies #[trigger] rest[i] == items[i + 1] by {}
        if items[0].0 != slot {
            if parent_of(items, slot) is None {
                assert forall|i: int| 0 <= i < items.len() implies (#[trigger] items[i]).0
                    != slot by {
                    if i > 0 {
                        assert(rest[i - 1] == items[i]);
                    }
                }
            }
            if forall|i: int| 0 <= i < items.len() ==> (#[trigger] items[i]).0 != slot {
                assert forall|i: int| 0 <= i < rest.len() implies (#[trigger] rest[i]).0 != slot by {
                    assert(rest[i] == items[i + 1]);
                }
            }
            assert forall|at: int|
                0 <= at < items.len() && (#[trigger] items[at]).0 == slot && (forall|i: int|
                    0 <= i < at ==> (#[trigger] items[i]).0 != slot) implies parent_of(items, slot)
                == Some(items[at].1) by {
                assert(at > 0);
                assert(rest[at - 1] == items[at]);
                assert forall|i: int| 0 <= i < at - 1 implies (#[trigger] rest[i]).0 != slot by {
                    assert(rest[i] == items[i + 1]);
                }
            }
        } else {
            assert(items[0].0 == slot);
        }
    }
}

/// What a context carries is all that is read from it, and one that carries nothing has no
/// entries.
pub proof fn lemma_carried_entries_are_all(carried: Option<Seq<(u8, Context)>>)
    ensures
        carried matches Some(items) ==> entries_or_none(carried) == items,
        carried is None ==> entries_or_none(carried).len() == 0,
{
}

/// Making a context the active one of a slot: the slot has it, every other slot has what it
/// had, entries stay in their places, and there is one more exactly if the slot had none.
pub proof fn lemma_advancing_one_slot(items: Seq<(u8, Context)>, slot: u8, cx: Context)
    ensures
        parent_of(with_parent(items, slot, cx), slot) == Some(cx),
        forall|other: u8|
            other != slot ==> #[trigger] parent_of(with_parent(items, slot, cx), other)
                == parent_of(items, other),
        with_parent(items, slot, cx).len() == items.len() + (if parent_of(items, slot) is None {
            1int
        } else {
            0int
        }),
        forall|i: int|
            0 <= i < items.len() ==> (#[trigger] with_parent(items, slot, cx)[i]).0 == items[i].0,
        forall|i: int|
            0 <= i < items.len() && items[i].0 != slot ==> #[trigger] with_parent(
                items,
                slot,
                cx,
            )[i] == items[i],
    decreases items.len(),
{
    let after = with_parent(items, slot, cx);
    if items.len() == 0 {
        assert(after[0] == (slot, cx));
        reveal_with_fuel(parent_of, 2);
        assert(after.drop_first() =~= Seq::<(u8, Context)>::empty());
    } else if items.first().0 == slot {
        assert(after.drop_first() =~= items.drop_first());
    } else {
        let rest = items.drop_first();
        lemma_advancing_one_slot(rest, slot, cx);
        assert(after.drop_first() =~= with_parent(rest, slot, cx));
        assert forall|i: int| 1 <= i < items.len() implies #[trigger] after[i] == with_parent(
            rest,
            slot,
            cx,
        )[i - 1] && items[i] == rest[i - 1] by {}
        assert forall|other: u8| other != slot implies #[trigger] parent_of(after, other)
            == parent_of(items, other) by {
            assert(parent_of(with_parent(rest, slot, cx), other) == parent_of(rest, other));
        }
    }
}

/// An envelope is one that was put into the very context that it came with.
proof fn lemma_envelopes_are_of_the_calls_made(
    cx: Context,
    items: Seq<(u8, Context)>,
    with: Context,
)
    ensures
        carries_parents(cx, items, with) ==> exists|parents: InProcessParents|
            parent_items(parents) == items && #[trigger] call_ensures(
                with_parents,
                (&cx, parents),
                with,
            ),
        carries_state(cx, items, with) ==> exists|state: MultiInstrumentState|
            parent_items(state.parents) == items && #[trigger] call_ensures(
                with_state,
                (&cx, state),
                with,
            ),
{
}

/// What stays of the entries while slots have their turns: each stays in its place with its
/// slot, one that is not the first of an active slot stays altogether, and what is added is
/// one entry each for active slots that had none.
pub proof fn lemma_what_growing_leaves(
    active: Set<u8>,
    before: Seq<(u8, Context)>,
    after: Seq<(u8, Context)>,
    i: int,
    j: int,
)
    requires
        grown(active, before, after),
    ensures
        before.len() <= after.len(),
        0 <= i < before.len() ==> after[i].0 == before[i].0,
        0 <= i < before.len() && !active.contains(before[i].0) ==> after[i] == before[i],
        0 <= i < j < before.len() && before[i].0 == before[j].0 ==> after[j] == before[j],
        before.len() <= i < after.len() ==> active.contains(after[i].0),
        before.len() <= i < after.len() && 0 <= j < i ==> after[j].0 != after[i].0,
{
    if before.len() <= i < after.len() {
        assert(is_first_entry(after, after[i].0, i));
    }
}

/// Slots are distinct exactly if no two entries are for the same one.
pub proof fn lemma_what_distinct_slots_are(items: Seq<(u8, Context)>)
    ensures
        slots_distinct(items) <==> (forall|i: int, j: int|
            0 <= i < items.len() && 0 <= j < items.len() && i != j ==> (#[trigger] items[i]).0 != (
            #[trigger] items[j]).0),
{
}

} // verus!
