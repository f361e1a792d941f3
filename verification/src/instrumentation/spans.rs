//! One call, one span per active slot.
use std::sync::Arc;

use opentelemetry::global::{BoxedSpan, BoxedTracer};
use opentelemetry::trace::SpanBuilder;
use opentelemetry::{Context, KeyValue};
use vstd::prelude::*;

use crate::instrumentation::context::{attach_parents, carried_parents, carried_state,
    carries_parents, entries_or_none, grown, lemma_carries_parents, lemma_grown_by_one,
    lemma_grown_stays_distinct, parent_items, parent_of, parents_or_new, slots_distinct};
use crate::instrumentation::slots::Slots;
use crate::instrumentation::tracer::{attached, builder_attributes, builder_name, built, current,
    current_span, describes, has_span, is_current, is_root,
    lemma_a_started_span_is_the_current_one, lemma_attached, lemma_root, root, span_ids, start_in,
    started};
use crate::mask::{bit, has_slot, lemma_clear_bit, lemma_empty_mask, slot_set, split_lowest};

verus! {

/// The distributed slot, if it traces the call.
pub open spec fn active_distributed<T>(slots: Slots<T>, enabled: Set<u8>) -> Option<u8> {
    match slots.distributed {
        Some(slot) => if enabled.contains(slot) {
            Some(slot)
        } else {
            None
        },
        None => None,
    }
}

/// Whether a slot traces the call within the process: it is enabled and live, and
/// it is not the distributed one.
pub open spec fn active_in_process<T>(slots: Slots<T>, enabled: Set<u8>, slot: u8) -> bool {
    enabled.contains(slot) && slots.live(slot) && slots.distributed != Some(slot)
}

/// Whether `base` is where a slot starts from: its active context, or a fresh one
/// if it has none.
pub open spec fn is_base(parent: Option<Context>, base: Context) -> bool {
    match parent {
        Some(cx) => base == cx,
        None => is_root(base),
    }
}

/// Whether `child` is a new span of a slot, under the span that was active for it.
pub open spec fn continues(
    tracer: Arc<BoxedTracer>,
    name: Seq<char>,
    attrs: Seq<KeyValue>,
    parent: Option<Context>,
    child: Option<Context>,
) -> bool {
    &&& child is Some
    &&& exists|base: Context|
        #[trigger] is_base(parent, base) && started(tracer, name, attrs, base, child->0)
}

/// Whether the entries `after` are those `before`, with a new span for each of the
/// slots in `active` and the other slots left alone. No entry is added for a slot that
/// has one, so where each slot occurs once it still does.
pub open spec fn advanced(
    tracers: Seq<Option<Arc<BoxedTracer>>>,
    active: Set<u8>,
    name: Seq<char>,
    attrs: Seq<KeyValue>,
    before: Seq<(u8, Context)>,
    after: Seq<(u8, Context)>,
) -> bool {
    &&& grown(active, before, after)
    &&& slots_distinct(before) ==> slots_distinct(after)
    &&& forall|slot: u8|
        #![trigger parent_of(after, slot)]
        if active.contains(slot) {
            continues(
                tracers[slot as int]->0,
                name,
                attrs,
                parent_of(before, slot),
                parent_of(after, slot),
            )
        } else {
            parent_of(after, slot) == parent_of(before, slot)
        }
}

/// Whether `base` is the current context after the distributed slot had its turn:
/// with a new span under the current one, or as it was.
pub open spec fn distributed_turn(
    slots: Slots<Arc<BoxedTracer>>,
    enabled: Set<u8>,
    name: Seq<char>,
    attrs: Seq<KeyValue>,
    cx: Context,
    base: Context,
) -> bool {
    match active_distributed(slots, enabled) {
        Some(slot) => {
            &&& started(slots.tracers@[slot as int]->0, name, attrs, cx, base)
            &&& carried_parents(base) == carried_parents(cx)
        },
        None => base == cx,
    }
}

/// Whether `tip` is what the in-process slots make of `base`: a copy with an
/// envelope in which each active slot has a new span, or `base` itself if none is
/// active.
pub open spec fn in_process_turn(
    slots: Slots<Arc<BoxedTracer>>,
    enabled: Set<u8>,
    name: Seq<char>,
    attrs: Seq<KeyValue>,
    base: Context,
    tip: Context,
) -> bool {
    let active = Set::new(|slot: u8| active_in_process(slots, enabled, slot));
    if active == Set::<u8>::empty() {
        tip == base
    } else {
        exists|items: Seq<(u8, Context)>|
            advanced(
                slots.tracers@,
                active,
                name,
                attrs,
                entries_or_none(carried_parents(base)),
                items,
            ) && #[trigger] carries_parents(base, items, tip)
    }
}

/// What comes of a call in the context `cx`: one new span per active slot, or
/// nothing at all if no slot is active.
pub open spec fn spans_started(
    slots: Slots<Arc<BoxedTracer>>,
    enabled: Set<u8>,
    name: Seq<char>,
    attrs: Seq<KeyValue>,
    cx: Context,
    tip: Option<Context>,
) -> bool {
    let idle = active_distributed(slots, enabled) is None && forall|slot: u8|
        !#[trigger] active_in_process(slots, enabled, slot);
    match tip {
        Some(tip) => {
            &&& !idle
            &&& exists|base: Context|
                #[trigger] distributed_turn(slots, enabled, name, attrs, cx, base)
                    && in_process_turn(slots, enabled, name, attrs, base, tip)
        },
        None => idle,
    }
}

/// Starts a span for every active slot of a call that is made in the context `cx`.
pub fn start_spans_in(
    slots: &Slots<Arc<BoxedTracer>>,
    enabled_slots: u64,
    span_name: &'static str,
    attrs: &Vec<KeyValue>,
    cx: Context,
) -> (tip: Option<Context>)
    requires
        slots.wf(),
    ensures
        spans_started(*slots, slot_set(enabled_slots), span_name@, attrs@, cx, tip),
{
    let ghost enabled = slot_set(enabled_slots);
    let ghost before = cx;
    let mut cx = cx;
    let mut created_any = false;
    let mut in_process_mask = enabled_slots;

    if let Some(slot) = slots.distributed {
        assert(slots.live(slot));
        if enabled_slots & bit(slot) != 0 {
            assert(has_slot(enabled_slots, slot));
            match &slots.tracers[slot as usize] {
                Some(tracer) => {
                    // The parent is whatever span is current: a remote one, one of
                    // another library, or an earlier one of this instrumentation.
                    cx = start_in(tracer, span_name, attrs, &cx);
                    created_any = true;
                },
                None => {},
            }
            in_process_mask = enabled_slots & !bit(slot);
            proof {
                lemma_clear_bit(enabled_slots, slot);
            }
        }
        assert(enabled.contains(slot) == has_slot(enabled_slots, slot));
    }
    let ghost base = cx;
    let ghost active = Set::new(|slot: u8| active_in_process(*slots, enabled, slot));
    assert(distributed_turn(*slots, enabled, span_name@, attrs@, before, base));
    assert(created_any == active_distributed(*slots, enabled) is Some);
    assert forall|slot: u8| #[trigger]
        has_slot(in_process_mask, slot) && slots.live(slot) <==> active.contains(slot) by {
        assert(slot_set(in_process_mask).contains(slot) == has_slot(in_process_mask, slot));
        assert(enabled.contains(slot) == has_slot(enabled_slots, slot));
    }

    if in_process_mask != 0 {
        let mut parents = parents_or_new(&cx);
        let ghost items = parent_items(parents);
        let mut changed = false;
        let mut bits = in_process_mask;
        let ghost mut done: Set<u8> = Set::empty();
        while bits != 0
            invariant
                slots.wf(),
                active == Set::new(|slot: u8| active_in_process(*slots, enabled, slot)),
                forall|slot: u8| #[trigger]
                    has_slot(in_process_mask, slot) && slots.live(slot) <==> active.contains(slot),
                forall|slot: u8| #[trigger]
                    has_slot(bits, slot) ==> has_slot(in_process_mask, slot),
                forall|slot: u8| #[trigger]
                    done.contains(slot) <==> active.contains(slot) && !has_slot(bits, slot),
                forall|slot: u8, other: u8|
                    #![trigger done.contains(slot), has_slot(bits, other)]
                    done.contains(slot) && has_slot(bits, other) ==> slot < other,
                advanced(slots.tracers@, done, span_name@, attrs@, items, parent_items(parents)),
                changed == (done != Set::<u8>::empty()),
            decreases bits,
        {
            let ghost bits_before = bits;
            let (slot, rest) = split_lowest(bits);
            bits = rest;
            assert forall|other: u8| #[trigger] has_slot(bits, other) <==> has_slot(
                bits_before,
                other,
            ) && other != slot by {
                assert(slot_set(bits).contains(other) == has_slot(bits, other));
                assert(slot_set(bits_before).contains(other) == has_slot(bits_before, other));
            }
            match &slots.tracers[slot as usize] {
                Some(tracer) => {
                    let ghost items_before = parent_items(parents);
                    let parent = parents.parent(slot);
                    let base_cx = match parent {
                        Some(cx) => cx,
                        None => root(),
                    };
                    let child = start_in(tracer, span_name, attrs, &base_cx);
                    let ghost tip = child;
                    parents.advance(slot, child);
                    changed = true;
                    proof {
                        assert(slots.live(slot));
                        assert(active.contains(slot));
                        let done_before = done;
                        assert(!done_before.contains(slot));
                        assert(parent_of(items_before, slot) == parent_of(items, slot));
                        assert(has_slot(bits_before, slot));
                        lemma_grown_by_one(done, items, items_before, slot, tip);
                        done = done.insert(slot);
                        if slots_distinct(items) {
                            lemma_grown_stays_distinct(done, items, parent_items(parents));
                        }
                        assert(done.contains(slot));
                        assert(started(*tracer, span_name@, attrs@, base_cx, tip));
                        assert(is_base(parent_of(items, slot), base_cx));
                        assert(parent_of(parent_items(parents), slot) == Some(tip));
                        assert(continues(
                            *tracer,
                            span_name@,
                            attrs@,
                            parent_of(items, slot),
                            parent_of(parent_items(parents), slot),
                        ));
                        assert forall|other: u8|
                            #![trigger parent_of(parent_items(parents), other)]
                            if done.contains(other) {
                                continues(
                                    slots.tracers@[other as int]->0,
                                    span_name@,
                                    attrs@,
                                    parent_of(items, other),
                                    parent_of(parent_items(parents), other),
                                )
                            } else {
                                parent_of(parent_items(parents), other) == parent_of(items, other)
                            } by {
                            if other != slot {
                                assert(parent_of(parent_items(parents), other) == parent_of(
                                    items_before,
                                    other,
                                ));
                                assert(done.contains(other) == done_before.contains(other));
                            }
                        }
                    }
                },
                None => {
                    // The instrumentation ended meanwhile: its slot is passed over.
                    assert(!slots.live(slot));
                },
            }
        }
        proof {
            lemma_empty_mask(bits);
            assert(done =~= active) by {
                assert forall|slot: u8| done.contains(slot) == active.contains(slot) by {
                    assert(slot_set(bits).contains(slot) == has_slot(bits, slot));
                }
            }
        }
        if changed {
            cx = attach_parents(&cx, parents);
            created_any = true;
        }
    } else {
        proof {
            lemma_empty_mask(in_process_mask);
            assert(active =~= Set::<u8>::empty()) by {
                assert forall|slot: u8| !active.contains(slot) by {
                    assert(slot_set(in_process_mask).contains(slot) == has_slot(
                        in_process_mask,
                        slot,
                    ));
                }
            }
        }
    }
    proof {
        assert(in_process_turn(*slots, enabled, span_name@, attrs@, base, cx));
        if active == Set::<u8>::empty() {
            assert forall|slot: u8| !#[trigger] active_in_process(*slots, enabled, slot) by {
                assert(!active.contains(slot));
            }
        } else {
            assert(exists|slot: u8| active.contains(slot)) by {
                if forall|slot: u8| !active.contains(slot) {
                    assert(active =~= Set::<u8>::empty());
                }
            }
            let slot = choose|slot: u8| active.contains(slot);
            assert(active_in_process(*slots, enabled, slot));
        }
    }
    if created_any {
        Some(cx)
    } else {
        None
    }
}

/// Starts a span for every active slot of a call, in the context that is current on
/// this thread. The answer is the context to attach while the call runs, or nothing
/// if no slot is active.
pub fn start_spans(
    slots: &Slots<Arc<BoxedTracer>>,
    enabled_slots: u64,
    span_name: &'static str,
    attrs: Vec<KeyValue>,
) -> (tip: Option<Context>)
    requires
        slots.wf(),
    ensures
        exists|cx: Context| #[trigger]
            is_current(cx) && spans_started(
                *slots,
                slot_set(enabled_slots),
                span_name@,
                attrs@,
                cx,
                tip,
            ),
{
    let cx = current();
    let ghost before = cx;
    let tip = start_spans_in(slots, enabled_slots, span_name, &attrs, cx);
    assert(is_current(before));
    tip
}

/// The turns that led to the tip: the context after the distributed slot had its turn, and
/// what the in-process slots made of the entries that the current context carries.
proof fn lemma_turns(
    slots: Slots<Arc<BoxedTracer>>,
    enabled: Set<u8>,
    name: Seq<char>,
    attrs: Seq<KeyValue>,
    cx: Context,
    tip: Context,
) -> (base: Context)
    requires
        spans_started(slots, enabled, name, attrs, cx, Some(tip)),
    ensures
        distributed_turn(slots, enabled, name, attrs, cx, base),
        carried_state(tip) == carried_state(base),
        has_span(tip) == has_span(base),
        current_span(tip) == current_span(base),
        advanced(
            slots.tracers@,
            Set::new(|slot: u8| active_in_process(slots, enabled, slot)),
            name,
            attrs,
            entries_or_none(carried_parents(cx)),
            entries_or_none(carried_parents(tip)),
        ),
{
    let active = Set::new(|slot: u8| active_in_process(slots, enabled, slot));
    let base = choose|base: Context|
        #[trigger] distributed_turn(slots, enabled, name, attrs, cx, base) && in_process_turn(
            slots,
            enabled,
            name,
            attrs,
            base,
            tip,
        );
    if active != Set::<u8>::empty() {
        let items = choose|items: Seq<(u8, Context)>|
            advanced(
                slots.tracers@,
                active,
                name,
                attrs,
                entries_or_none(carried_parents(base)),
                items,
            ) && #[trigger] carries_parents(base, items, tip);
        lemma_carries_parents(base, items, tip);
    }
    base
}

/// The traces of the slots are isolated from each other: whatever the slots of a
/// call do, a slot that is not active in the process keeps its active span, and one
/// that is goes on from its own span and no other.
pub proof fn lemma_traces_are_isolated(
    slots: Slots<Arc<BoxedTracer>>,
    enabled: Set<u8>,
    name: Seq<char>,
    attrs: Seq<KeyValue>,
    cx: Context,
    tip: Context,
    slot: u8,
)
    requires
        spans_started(slots, enabled, name, attrs, cx, Some(tip)),
    ensures
        if active_in_process(slots, enabled, slot) {
            continues(
                slots.tracers@[slot as int]->0,
                name,
                attrs,
                parent_of(entries_or_none(carried_parents(cx)), slot),
                parent_of(entries_or_none(carried_parents(tip)), slot),
            )
        } else {
            parent_of(entries_or_none(carried_parents(tip)), slot) == parent_of(
                entries_or_none(carried_parents(cx)),
                slot,
            )
        },
{
    let active = Set::new(|slot: u8| active_in_process(slots, enabled, slot));
    lemma_turns(slots, enabled, name, attrs, cx, tip);
    assert(active.contains(slot) == active_in_process(slots, enabled, slot));
}

/// In-process instrumentations do not touch the current span, so what is sent to
/// other processes does not change with them.
pub proof fn lemma_current_span_is_kept(
    slots: Slots<Arc<BoxedTracer>>,
    enabled: Set<u8>,
    name: Seq<char>,
    attrs: Seq<KeyValue>,
    cx: Context,
    tip: Context,
)
    requires
        spans_started(slots, enabled, name, attrs, cx, Some(tip)),
        active_distributed(slots, enabled) is None,
    ensures
        current_span(tip) == current_span(cx),
{
    lemma_turns(slots, enabled, name, attrs, cx, tip);
}

/// Where each slot occurs once among the entries that the current context carries, it does
/// so among those of the tip: the envelope has at most one entry per slot, however deep the
/// calls are nested. An entry that no active slot owns is left as it was.
pub proof fn lemma_each_slot_occurs_once(
    slots: Slots<Arc<BoxedTracer>>,
    enabled: Set<u8>,
    name: Seq<char>,
    attrs: Seq<KeyValue>,
    cx: Context,
    tip: Context,
)
    requires
        spans_started(slots, enabled, name, attrs, cx, Some(tip)),
        slots_distinct(entries_or_none(carried_parents(cx))),
    ensures
        slots_distinct(entries_or_none(carried_parents(tip))),
        grown(
            Set::new(|slot: u8| active_in_process(slots, enabled, slot)),
            entries_or_none(carried_parents(cx)),
            entries_or_none(carried_parents(tip)),
        ),
{
    lemma_turns(slots, enabled, name, attrs, cx, tip);
}

/// An in-process span never joins a trace that is not its own: the first span of a slot is
/// made under a context without a span, whatever the current span is.
pub proof fn lemma_first_span_of_a_slot_is_a_root(
    slots: Slots<Arc<BoxedTracer>>,
    enabled: Set<u8>,
    name: Seq<char>,
    attrs: Seq<KeyValue>,
    cx: Context,
    tip: Context,
    slot: u8,
)
    requires
        spans_started(slots, enabled, name, attrs, cx, Some(tip)),
        active_in_process(slots, enabled, slot),
        parent_of(entries_or_none(carried_parents(cx)), slot) is None,
    ensures
        parent_of(entries_or_none(carried_parents(tip)), slot) is Some,
        exists|base: Context|
            current_span(base) == (0u128, 0u64) && #[trigger] started(
                slots.tracers@[slot as int]->0,
                name,
                attrs,
                base,
                parent_of(entries_or_none(carried_parents(tip)), slot)->0,
            ),
{
    lemma_traces_are_isolated(slots, enabled, name, attrs, cx, tip, slot);
    let child = parent_of(entries_or_none(carried_parents(tip)), slot)->0;
    let base = choose|base: Context|
        #[trigger] is_base(None, base) && started(
            slots.tracers@[slot as int]->0,
            name,
            attrs,
            base,
            child,
        );
    lemma_root(base);
    assert(started(slots.tracers@[slot as int]->0, name, attrs, base, child));
}

/// The span of a distributed instrumentation is made under the current span and becomes the
/// current one, which is what is sent to other processes.
pub proof fn lemma_distributed_span_is_current(
    slots: Slots<Arc<BoxedTracer>>,
    enabled: Set<u8>,
    name: Seq<char>,
    attrs: Seq<KeyValue>,
    cx: Context,
    tip: Context,
    slot: u8,
)
    requires
        spans_started(slots, enabled, name, attrs, cx, Some(tip)),
        active_distributed(slots, enabled) == Some(slot),
    ensures
        exists|builder: SpanBuilder, span: BoxedSpan|
            describes(builder, name, attrs) && #[trigger] built(
                slots.tracers@[slot as int]->0,
                builder,
                cx,
                span,
            ) && current_span(tip) == span_ids(span),
{
    let tracer = slots.tracers@[slot as int]->0;
    let base = lemma_turns(slots, enabled, name, attrs, cx, tip);
    let (builder, span) = choose|builder: SpanBuilder, span: BoxedSpan|
        describes(builder, name, attrs) && #[trigger] built(tracer, builder, cx, span)
            && #[trigger] attached(cx, span, base);
    lemma_attached(cx, span, base);
    assert(built(tracer, builder, cx, span));
}

/// Every in-process instrumentation that has the function enabled gets a span of its own for
/// every call, whatever other slots are enabled, and whether there is a distributed one or
/// not: its tracer is asked, by the name and with every field, for a child of the span that
/// is active for the slot, or for the root of a trace if none is.
pub proof fn lemma_an_in_process_slot_always_gets_its_span(
    slots: Slots<Arc<BoxedTracer>>,
    enabled: Set<u8>,
    name: Seq<char>,
    attrs: Seq<KeyValue>,
    cx: Context,
    tip: Option<Context>,
    slot: u8,
) -> (made: (Context, SpanBuilder, BoxedSpan))
    requires
        spans_started(slots, enabled, name, attrs, cx, tip),
        slot < 64,
        enabled.contains(slot),
        slots.tracers@[slot as int] is Some,
        slots.distributed != Some(slot),
    ensures
        tip is Some,
        carried_parents(tip->0) is Some,
        parent_of(entries_or_none(carried_parents(tip->0)), slot) is Some,
        match parent_of(entries_or_none(carried_parents(cx)), slot) {
            Some(active) => made.0 == active,
            None => is_root(made.0) && !has_span(made.0) && current_span(made.0) == (0u128, 0u64),
        },
        builder_name(made.1) == name,
        attrs.len() > 0 ==> builder_attributes(made.1) == Some(attrs),
        attrs.len() == 0 ==> builder_attributes(made.1) is None,
        built(slots.tracers@[slot as int]->0, made.1, made.0, made.2),
        attached(
            made.0,
            made.2,
            parent_of(entries_or_none(carried_parents(tip->0)), slot)->0,
        ),
{
    assert(active_in_process(slots, enabled, slot));
    let tip = tip->0;
    let active = Set::new(|slot: u8| active_in_process(slots, enabled, slot));
    assert(active.contains(slot));
    let tracer = slots.tracers@[slot as int]->0;
    lemma_turns(slots, enabled, name, attrs, cx, tip);
    let before = parent_of(entries_or_none(carried_parents(cx)), slot);
    let after = parent_of(entries_or_none(carried_parents(tip)), slot);
    assert(continues(tracer, name, attrs, before, after));
    let base = choose|base: Context|
        #[trigger] is_base(before, base) && started(tracer, name, attrs, base, after->0);
    if before is None {
        lemma_root(base);
    }
    let (builder, span) = lemma_a_started_span_is_the_current_one(
        tracer,
        name,
        attrs,
        base,
        after->0,
    );
    if carried_parents(tip) is None {
        assert(entries_or_none(carried_parents(tip)).len() == 0);
    }
    (base, builder, span)
}

/// A slot that does not have the function enabled, whose instrumentation has ended or which
/// is the distributed one leaves no mark among the in-process spans: what was active for it
/// still is.
pub proof fn lemma_other_slots_are_left_alone(
    slots: Slots<Arc<BoxedTracer>>,
    enabled: Set<u8>,
    name: Seq<char>,
    attrs: Seq<KeyValue>,
    cx: Context,
    tip: Context,
    slot: u8,
)
    requires
        spans_started(slots, enabled, name, attrs, cx, Some(tip)),
        !enabled.contains(slot) || slot >= 64 || slots.tracers@[slot as int] is None
            || slots.distributed == Some(slot),
    ensures
        parent_of(entries_or_none(carried_parents(tip)), slot) == parent_of(
            entries_or_none(carried_parents(cx)),
            slot,
        ),
{
    let active = Set::new(|slot: u8| active_in_process(slots, enabled, slot));
    lemma_turns(slots, enabled, name, attrs, cx, tip);
    assert(!active.contains(slot));
}

/// The distributed instrumentation, if it has the function enabled, always gets a span: its
/// tracer is asked, by the name and with every field, for a child of the current span, and
/// the answer is the current span of the call.
pub proof fn lemma_the_distributed_slot_always_gets_its_span(
    slots: Slots<Arc<BoxedTracer>>,
    enabled: Set<u8>,
    name: Seq<char>,
    attrs: Seq<KeyValue>,
    cx: Context,
    tip: Option<Context>,
    slot: u8,
) -> (made: (SpanBuilder, BoxedSpan))
    requires
        spans_started(slots, enabled, name, attrs, cx, tip),
        slots.distributed == Some(slot),
        enabled.contains(slot),
    ensures
        tip is Some,
        builder_name(made.0) == name,
        attrs.len() > 0 ==> builder_attributes(made.0) == Some(attrs),
        attrs.len() == 0 ==> builder_attributes(made.0) is None,
        built(slots.tracers@[slot as int]->0, made.0, cx, made.1),
        has_span(tip->0),
        current_span(tip->0) == span_ids(made.1),
        carried_state(tip->0) == carried_state(cx),
{
    assert(active_distributed(slots, enabled) == Some(slot));
    let base = lemma_turns(slots, enabled, name, attrs, cx, tip->0);
    lemma_a_started_span_is_the_current_one(
        slots.tracers@[slot as int]->0,
        name,
        attrs,
        cx,
        base,
    )
}

/// Without a distributed instrumentation that has the function enabled, the current span of
/// the call is the one that was current before, so what is sent to other processes does not
/// change.
pub proof fn lemma_the_current_span_stays_without_a_distributed_slot(
    slots: Slots<Arc<BoxedTracer>>,
    enabled: Set<u8>,
    name: Seq<char>,
    attrs: Seq<KeyValue>,
    cx: Context,
    tip: Context,
)
    requires
        spans_started(slots, enabled, name, attrs, cx, Some(tip)),
        slots.distributed matches Some(slot) ==> !enabled.contains(slot),
    ensures
        has_span(tip) == has_span(cx),
        current_span(tip) == current_span(cx),
        carried_state(tip) == carried_state(cx),
{
    assert(active_distributed(slots, enabled) is None);
    lemma_turns(slots, enabled, name, attrs, cx, tip);
}

/// A call is left alone exactly if no live instrumentation has the function enabled.
pub proof fn lemma_a_call_is_left_alone_exactly_if_nobody_traces_it(
    slots: Slots<Arc<BoxedTracer>>,
    enabled: Set<u8>,
    name: Seq<char>,
    attrs: Seq<KeyValue>,
    cx: Context,
    tip: Option<Context>,
)
    requires
        spans_started(slots, enabled, name, attrs, cx, tip),
        slots.distributed matches Some(slot) ==> slot < 64 && slots.tracers@[slot as int] is Some,
    ensures
        tip is None <==> (forall|slot: u8| #[trigger]
            enabled.contains(slot) && slot < 64 ==> slots.tracers@[slot as int] is None),
{
    if tip is None {
        assert forall|slot: u8| #[trigger] enabled.contains(slot) && slot < 64 implies
            slots.tracers@[slot as int] is None by {
            assert(!active_in_process(slots, enabled, slot));
            if slots.distributed == Some(slot) {
                assert(active_distributed(slots, enabled) == Some(slot));
            }
        }
    } else {
        match active_distributed(slots, enabled) {
            Some(slot) => {
                assert(enabled.contains(slot));
            },
            None => {
                let slot = choose|slot: u8| active_in_process(slots, enabled, slot);
                assert(enabled.contains(slot));
            },
        }
    }
}

/// A call that starts spans does so by the mask of the function, in the context given.
pub proof fn lemma_start_spans_in_goes_by_the_mask(
    slots: Slots<Arc<BoxedTracer>>,
    enabled_slots: u64,
    span_name: &'static str,
    attrs: Vec<KeyValue>,
    cx: Context,
    tip: Option<Context>,
)
    requires
        call_ensures(start_spans_in, (&slots, enabled_slots, span_name, &attrs, cx), tip),
    ensures
        spans_started(slots, slot_set(enabled_slots), span_name@, attrs@, cx, tip),
{
}

/// A call that starts spans does so by the mask of the function, in the context that is
/// current on its thread.
pub proof fn lemma_start_spans_goes_by_the_mask(
    slots: Slots<Arc<BoxedTracer>>,
    enabled_slots: u64,
    span_name: &'static str,
    attrs: Vec<KeyValue>,
    tip: Option<Context>,
) -> (cx: Context)
    requires
        call_ensures(start_spans, (&slots, enabled_slots, span_name, attrs), tip),
    ensures
        is_current(cx),
        spans_started(slots, slot_set(enabled_slots), span_name@, attrs@, cx, tip),
{
    choose|cx: Context| #[trigger]
        is_current(cx) && spans_started(
            slots,
            slot_set(enabled_slots),
            span_name@,
            attrs@,
            cx,
            tip,
        )
}

} // verus!
