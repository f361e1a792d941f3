//! One call, one span per slot that traces it.
use std::sync::Arc;

use opentelemetry::global::{BoxedSpan, BoxedTracer};
use opentelemetry::trace::SpanBuilder;
use opentelemetry::{Context, KeyValue};
use vstd::prelude::*;

use crate::instrumentation::context::{attach_state, carried_parents, carried_state,
    carries_state, entries_or_none, grown, lemma_carries_state, lemma_grown_by_one,
    lemma_grown_stays_distinct, parent_items, parent_of, slots_distinct, state_or_new};
use crate::instrumentation::spans::{continues, is_base};
use crate::instrumentation::tracer::{attached, builder_attributes, builder_name, built, current,
    current_span, describes, has_span, is_current, is_global_tracer, is_root,
    lemma_a_started_span_is_the_current_one, lemma_attached, lemma_reported, lemma_root, recording,
    reported, root, span_ids, start_in, started, tracer_named};
use crate::mask::{bit, has_slot, lemma_empty_mask, slot_set, split_lowest};
use crate::stylus::slots::{SlotTable, DEFAULT_SLOT};

verus! {

/// Whether a function gets a span: a child-only one does so only under a recording
/// span.
pub fn may_start(child_only: bool, recording: bool) -> (start: bool)
    ensures
        start == (child_only ==> recording),
{
    !child_only || recording
}

/// Whether a slot that is enabled has the right answer to whether it starts a span,
/// given the context that its span would go under: it does, unless the function is
/// child-only for it and that context is not there or does not record.
pub open spec fn rightly_decided(parent: Option<Context>, child_only: bool, runs: bool) -> bool {
    if child_only {
        match parent {
            Some(cx) => reported(cx, runs),
            None => !runs,
        }
    } else {
        runs
    }
}

/// The context that the span of a slot goes under: the current one for the default
/// slot, the active one of the slot otherwise.
pub open spec fn parent_context(cx: Context, items: Seq<(u8, Context)>, slot: u8) -> Option<
    Context,
> {
    if slot == DEFAULT_SLOT {
        Some(cx)
    } else {
        parent_of(items, slot)
    }
}

/// Whether `ran` are the slots that start a span: those that are enabled, have a
/// tracer and are decided so.
pub open spec fn slots_decided(
    table: SlotTable<Arc<BoxedTracer>>,
    enabled: Set<u8>,
    child_only: Set<u8>,
    cx: Context,
    ran: Set<u8>,
) -> bool {
    forall|slot: u8| #[trigger]
        slot_decided(table, enabled, child_only, cx, slot, ran.contains(slot))
}

/// Whether `runs` is the right answer to whether a slot starts a span.
pub open spec fn slot_decided(
    table: SlotTable<Arc<BoxedTracer>>,
    enabled: Set<u8>,
    child_only: Set<u8>,
    cx: Context,
    slot: u8,
    runs: bool,
) -> bool {
    if enabled.contains(slot) && (slot == DEFAULT_SLOT || table.live(slot)) {
        rightly_decided(
            parent_context(cx, entries_or_none(carried_state(cx)), slot),
            child_only.contains(slot),
            runs,
        )
    } else {
        !runs
    }
}

/// Whether `base` is the current context after the default slot had its turn: with a
/// new span of the global tracer under the current one, or as it was.
pub open spec fn default_turn(
    runs: bool,
    tracer_name: &'static str,
    name: Seq<char>,
    attrs: Seq<KeyValue>,
    cx: Context,
    base: Context,
) -> bool {
    if runs {
        &&& carried_state(base) == carried_state(cx)
        &&& exists|tracer: Arc<BoxedTracer>| #[trigger]
            is_global_tracer(tracer_name, tracer) && started(tracer, name, attrs, cx, base)
    } else {
        base == cx
    }
}

/// Whether `after` are the entries `before`, with a new span for each of the named
/// slots in `ran` and the others left alone. No entry is added for a slot that has one,
/// so where each slot occurs once it still does.
pub open spec fn named_turn(
    table: SlotTable<Arc<BoxedTracer>>,
    ran: Set<u8>,
    name: Seq<char>,
    attrs: Seq<KeyValue>,
    before: Seq<(u8, Context)>,
    after: Seq<(u8, Context)>,
) -> bool {
    &&& grown(ran.remove(DEFAULT_SLOT), before, after)
    &&& slots_distinct(before) ==> slots_distinct(after)
    &&& forall|slot: u8|
        #![trigger parent_of(after, slot)]
        if slot != DEFAULT_SLOT && ran.contains(slot) {
            continues(
                table.tracers@[slot as int]->0,
                name,
                attrs,
                parent_of(before, slot),
                parent_of(after, slot),
            )
        } else {
            parent_of(after, slot) == parent_of(before, slot)
        }
}

/// Whether `tip` is what the slots in `ran` make of the context `cx`.
pub open spec fn tip_of(
    table: SlotTable<Arc<BoxedTracer>>,
    ran: Set<u8>,
    tracer_name: &'static str,
    name: Seq<char>,
    attrs: Seq<KeyValue>,
    cx: Context,
    tip: Context,
) -> bool {
    exists|base: Context, items: Seq<(u8, Context)>|
        default_turn(ran.contains(DEFAULT_SLOT), tracer_name, name, attrs, cx, base) && named_turn(
            table,
            ran,
            name,
            attrs,
            entries_or_none(carried_state(cx)),
            items,
        ) && #[trigger] carries_state(base, items, tip)
}

/// What comes of a call in the context `cx`: one new span per slot that starts one,
/// or nothing at all if none does.
pub open spec fn spans_started(
    table: SlotTable<Arc<BoxedTracer>>,
    enabled: Set<u8>,
    child_only: Set<u8>,
    tracer_name: &'static str,
    name: Seq<char>,
    attrs: Seq<KeyValue>,
    cx: Context,
    tip: Option<Context>,
) -> bool {
    exists|ran: Set<u8>|
        #[trigger] slots_decided(table, enabled, child_only, cx, ran) && match tip {
            Some(tip) => ran != Set::<u8>::empty() && tip_of(
                table,
                ran,
                tracer_name,
                name,
                attrs,
                cx,
                tip,
            ),
            None => ran == Set::<u8>::empty(),
        }
}

/// Starts a span for every slot that traces a call which is made in the context `cx`.
pub fn start_spans_in(
    table: &SlotTable<Arc<BoxedTracer>>,
    enabled_mask: u64,
    child_only_mask: u64,
    span_name: &'static str,
    default_tracer_name: &'static str,
    attrs: &Vec<KeyValue>,
    cx: Context,
) -> (tip: Option<Context>)
    requires
        table.wf(),
    ensures
        spans_started(
            *table,
            slot_set(enabled_mask),
            slot_set(child_only_mask),
            default_tracer_name,
            span_name@,
            attrs@,
            cx,
            tip,
        ),
{
    let ghost enabled = slot_set(enabled_mask);
    let ghost child_only = slot_set(child_only_mask);
    let mut state = state_or_new(&cx);
    let ghost items = entries_or_none(carried_state(cx));
    let mut default_cx: Option<Context> = None;
    let mut created_any = false;
    let mut bits = enabled_mask;
    let ghost mut ran: Set<u8> = Set::empty();
    while bits != 0
        invariant
            table.wf(),
            enabled == slot_set(enabled_mask),
            child_only == slot_set(child_only_mask),
            items == entries_or_none(carried_state(cx)),
            forall|slot: u8| #[trigger] has_slot(bits, slot) ==> enabled.contains(slot),
            forall|slot: u8| #[trigger]
                ran.contains(slot) ==> enabled.contains(slot) && !has_slot(bits, slot),
            forall|slot: u8|
                #![trigger slot_decided(
                    *table,
                    enabled,
                    child_only,
                    cx,
                    slot,
                    ran.contains(slot),
                )]
                !has_slot(bits, slot) ==> slot_decided(
                    *table,
                    enabled,
                    child_only,
                    cx,
                    slot,
                    ran.contains(slot),
                ),
            forall|slot: u8, other: u8|
                #![trigger ran.contains(slot), has_slot(bits, other)]
                ran.contains(slot) && has_slot(bits, other) ==> slot < other,
            named_turn(*table, ran, span_name@, attrs@, items, parent_items(state.parents)),
            match default_cx {
                Some(base) => ran.contains(DEFAULT_SLOT) && default_turn(
                    true,
                    default_tracer_name,
                    span_name@,
                    attrs@,
                    cx,
                    base,
                ),
                None => !ran.contains(DEFAULT_SLOT),
            },
            created_any == (ran != Set::<u8>::empty()),
        decreases bits,
    {
        let ghost bits_before = bits;
        let ghost ran_before = ran;
        let (slot, rest) = split_lowest(bits);
        bits = rest;
        assert forall|other: u8| #[trigger] has_slot(bits, other) <==> has_slot(bits_before, other)
            && other != slot by {
            assert(slot_set(bits).contains(other) == has_slot(bits, other));
            assert(slot_set(bits_before).contains(other) == has_slot(bits_before, other));
        }
        assert(enabled.contains(slot));
        assert(!ran_before.contains(slot));
        let is_child_only = child_only_mask & bit(slot) != 0;
        assert(child_only.contains(slot) == has_slot(child_only_mask, slot));
        if slot == DEFAULT_SLOT {
            let records = is_child_only && recording(&cx);
            if may_start(is_child_only, records) {
                let tracer = tracer_named(default_tracer_name);
                let base = start_in(&tracer, span_name, attrs, &cx);
                proof {
                    assert(is_global_tracer(default_tracer_name, tracer));
                    ran = ran.insert(slot);
                    assert(ran.remove(DEFAULT_SLOT) =~= ran_before.remove(DEFAULT_SLOT));
                }
                default_cx = Some(base);
                created_any = true;
            }
        } else {
            let parent = state.parents.parent(slot);
            assert(parent == parent_of(items, slot)) by {
                assert(parent_of(parent_items(state.parents), slot) == parent_of(items, slot));
            }
            let records = match &parent {
                Some(active) => is_child_only && recording(active),
                None => false,
            };
            if may_start(is_child_only, records) {
                match &table.tracers[slot as usize] {
                    Some(tracer) => {
                        let ghost items_before = parent_items(state.parents);
                        let base = match parent {
                            Some(active) => active,
                            None => root(),
                        };
                        let child = start_in(tracer, span_name, attrs, &base);
                        let ghost tip = child;
                        state.parents.advance(slot, child);
                        created_any = true;
                        proof {
                            assert(has_slot(bits_before, slot));
                            lemma_grown_by_one(
                                ran.remove(DEFAULT_SLOT),
                                items,
                                items_before,
                                slot,
                                tip,
                            );
                            ran = ran.insert(slot);
                            assert(ran.remove(DEFAULT_SLOT) =~= ran_before.remove(
                                DEFAULT_SLOT,
                            ).insert(slot));
                            if slots_distinct(items) {
                                lemma_grown_stays_distinct(
                                    ran.remove(DEFAULT_SLOT),
                                    items,
                                    parent_items(state.parents),
                                );
                            }
                            assert(table.live(slot));
                            assert(is_base(parent_of(items, slot), base));
                            assert(parent_of(parent_items(state.parents), slot) == Some(tip));
                            assert(continues(
                                *tracer,
                                span_name@,
                                attrs@,
                                parent_of(items, slot),
                                parent_of(parent_items(state.parents), slot),
                            ));
                            assert forall|other: u8|
                                #![trigger parent_of(parent_items(state.parents), other)]
                                if other != DEFAULT_SLOT && ran.contains(other) {
                                    continues(
                                        table.tracers@[other as int]->0,
                                        span_name@,
                                        attrs@,
                                        parent_of(items, other),
                                        parent_of(parent_items(state.parents), other),
                                    )
                                } else {
                                    parent_of(parent_items(state.parents), other) == parent_of(
                                        items,
                                        other,
                                    )
                                } by {
                                if other != slot {
                                    assert(parent_of(parent_items(state.parents), other)
                                        == parent_of(items_before, other));
                                    assert(ran.contains(other) == ran_before.contains(other));
                                }
                            }
                        }
                    },
                    None => {
                        // The instrumentation ended meanwhile: its slot is passed over.
                        assert(!table.live(slot));
                    },
                }
            }
        }
        proof {
            assert forall|other: u8|
                #![trigger slot_decided(*table, enabled, child_only, cx, other, ran.contains(other))]
                !has_slot(bits, other) implies slot_decided(
                *table,
                enabled,
                child_only,
                cx,
                other,
                ran.contains(other),
            ) by {
                if other != slot {
                    assert(ran.contains(other) == ran_before.contains(other));
                    assert(slot_decided(
                        *table,
                        enabled,
                        child_only,
                        cx,
                        other,
                        ran_before.contains(other),
                    ));
                }
            }
        }
    }
    proof {
        lemma_empty_mask(bits);
        assert forall|slot: u8| #[trigger]
            slot_decided(*table, enabled, child_only, cx, slot, ran.contains(slot)) by {
            assert(slot_set(bits).contains(slot) == has_slot(bits, slot));
        }
        assert(slots_decided(*table, enabled, child_only, cx, ran));
    }
    if !created_any {
        return None;
    }
    let ghost entries = parent_items(state.parents);
    let base = match default_cx {
        Some(base) => base,
        None => cx.clone(),
    };
    let tip = attach_state(&base, state);
    proof {
        assert(default_turn(
            ran.contains(DEFAULT_SLOT),
            default_tracer_name,
            span_name@,
            attrs@,
            cx,
            base,
        ));
        assert(carries_state(base, entries, tip));
        assert(tip_of(*table, ran, default_tracer_name, span_name@, attrs@, cx, tip));
    }
    Some(tip)
}

/// Starts a span for every slot that traces a call, in the context that is current on
/// this thread. The answer is the context to attach while the call runs, or nothing if
/// no slot starts a span.
pub fn start_spans(
    table: &SlotTable<Arc<BoxedTracer>>,
    enabled_mask: u64,
    child_only_mask: u64,
    span_name: &'static str,
    default_tracer_name: &'static str,
    attrs: Vec<KeyValue>,
) -> (tip: Option<Context>)
    requires
        table.wf(),
    ensures
        exists|cx: Context| #[trigger]
            is_current(cx) && spans_started(
                *table,
                slot_set(enabled_mask),
                slot_set(child_only_mask),
                default_tracer_name,
                span_name@,
                attrs@,
                cx,
                tip,
            ),
{
    let cx = current();
    let ghost before = cx;
    let tip = start_spans_in(
        table,
        enabled_mask,
        child_only_mask,
        span_name,
        default_tracer_name,
        &attrs,
        cx,
    );
    assert(is_current(before));
    tip
}

/// Nothing is traced that is not enabled: a call of a function that no slot has
/// enabled starts no span, child-only or not.
pub proof fn lemma_disabled_starts_nothing(
    table: SlotTable<Arc<BoxedTracer>>,
    child_only: Set<u8>,
    tracer_name: &'static str,
    name: Seq<char>,
    attrs: Seq<KeyValue>,
    cx: Context,
    tip: Option<Context>,
)
    requires
        spans_started(table, Set::empty(), child_only, tracer_name, name, attrs, cx, tip),
    ensures
        tip is None,
{
    let enabled = Set::<u8>::empty();
    let ran = choose|ran: Set<u8>|
        #[trigger] slots_decided(table, enabled, child_only, cx, ran) && match tip {
            Some(tip) => ran != Set::<u8>::empty() && tip_of(
                table,
                ran,
                tracer_name,
                name,
                attrs,
                cx,
                tip,
            ),
            None => ran == Set::<u8>::empty(),
        };
    assert forall|slot: u8| !ran.contains(slot) by {
        assert(slot_decided(table, enabled, child_only, cx, slot, ran.contains(slot)));
    }
    assert(ran =~= Set::<u8>::empty());
}

/// The turns that led to the tip: the slots that started a span, the context after the
/// default slot had its turn, and the entries after the named ones had theirs.
proof fn lemma_turns(
    table: SlotTable<Arc<BoxedTracer>>,
    enabled: Set<u8>,
    child_only: Set<u8>,
    tracer_name: &'static str,
    name: Seq<char>,
    attrs: Seq<KeyValue>,
    cx: Context,
    tip: Context,
) -> (turns: (Set<u8>, Context, Seq<(u8, Context)>))
    requires
        spans_started(table, enabled, child_only, tracer_name, name, attrs, cx, Some(tip)),
    ensures
        slots_decided(table, enabled, child_only, cx, turns.0),
        turns.0 != Set::<u8>::empty(),
        default_turn(turns.0.contains(DEFAULT_SLOT), tracer_name, name, attrs, cx, turns.1),
        named_turn(table, turns.0, name, attrs, entries_or_none(carried_state(cx)), turns.2),
        carried_state(tip) == Some(turns.2),
        carried_parents(tip) == carried_parents(turns.1),
        has_span(tip) == has_span(turns.1),
        current_span(tip) == current_span(turns.1),
{
    let ran = choose|ran: Set<u8>|
        #[trigger] slots_decided(table, enabled, child_only, cx, ran) && ran != Set::<u8>::empty()
            && tip_of(table, ran, tracer_name, name, attrs, cx, tip);
    let (base, items) = choose|base: Context, items: Seq<(u8, Context)>|
        default_turn(ran.contains(DEFAULT_SLOT), tracer_name, name, attrs, cx, base) && named_turn(
            table,
            ran,
            name,
            attrs,
            entries_or_none(carried_state(cx)),
            items,
        ) && #[trigger] carries_state(base, items, tip);
    lemma_carries_state(base, items, tip);
    (ran, base, items)
}

/// A child-only function never roots a trace: a named slot for which the function is
/// child-only and which has no active span keeps having none.
pub proof fn lemma_child_only_never_roots(
    table: SlotTable<Arc<BoxedTracer>>,
    enabled: Set<u8>,
    child_only: Set<u8>,
    tracer_name: &'static str,
    name: Seq<char>,
    attrs: Seq<KeyValue>,
    cx: Context,
    tip: Context,
    slot: u8,
)
    requires
        spans_started(table, enabled, child_only, tracer_name, name, attrs, cx, Some(tip)),
        slot != DEFAULT_SLOT,
        child_only.contains(slot),
        parent_of(entries_or_none(carried_state(cx)), slot) is None,
    ensures
        parent_of(entries_or_none(carried_state(tip)), slot) is None,
{
    let (ran, _, items) = lemma_turns(
        table,
        enabled,
        child_only,
        tracer_name,
        name,
        attrs,
        cx,
        tip,
    );
    assert(slot_decided(table, enabled, child_only, cx, slot, ran.contains(slot)));
    assert(parent_of(items, slot) == parent_of(entries_or_none(carried_state(cx)), slot));
}

/// A child-only function never roots a trace of the default instrumentation either: in a
/// context without a span the default slot starts none, so the context stays without one,
/// and nothing at all is started if no other slot is enabled.
pub proof fn lemma_child_only_never_roots_by_default(
    table: SlotTable<Arc<BoxedTracer>>,
    enabled: Set<u8>,
    child_only: Set<u8>,
    tracer_name: &'static str,
    name: Seq<char>,
    attrs: Seq<KeyValue>,
    cx: Context,
    tip: Option<Context>,
)
    requires
        spans_started(table, enabled, child_only, tracer_name, name, attrs, cx, tip),
        child_only.contains(DEFAULT_SLOT),
        !has_span(cx),
    ensures
        tip matches Some(tip) ==> !has_span(tip) && current_span(tip) == current_span(cx),
        (forall|slot: u8| #[trigger] enabled.contains(slot) ==> slot == DEFAULT_SLOT)
            ==> tip is None,
{
    if let Some(tip) = tip {
        let (ran, _, _) = lemma_turns(
            table,
            enabled,
            child_only,
            tracer_name,
            name,
            attrs,
            cx,
            tip,
        );
        assert(slot_decided(
            table,
            enabled,
            child_only,
            cx,
            DEFAULT_SLOT,
            ran.contains(DEFAULT_SLOT),
        ));
        if ran.contains(DEFAULT_SLOT) {
            lemma_reported(cx, true);
        }
        if forall|slot: u8| #[trigger] enabled.contains(slot) ==> slot == DEFAULT_SLOT {
            assert forall|slot: u8| !ran.contains(slot) by {
                assert(slot_decided(table, enabled, child_only, cx, slot, ran.contains(slot)));
                assert(enabled.contains(slot) ==> slot == DEFAULT_SLOT);
            }
            assert(ran =~= Set::<u8>::empty());
        }
    }
}

/// The traces of the named slots are isolated from each other and from the default one:
/// whatever the slots of a call do, a named slot keeps its active span or goes on from
/// that span and no other.
pub proof fn lemma_named_traces_are_isolated(
    table: SlotTable<Arc<BoxedTracer>>,
    enabled: Set<u8>,
    child_only: Set<u8>,
    tracer_name: &'static str,
    name: Seq<char>,
    attrs: Seq<KeyValue>,
    cx: Context,
    tip: Context,
    slot: u8,
)
    requires
        spans_started(table, enabled, child_only, tracer_name, name, attrs, cx, Some(tip)),
    ensures
        ({
            let before = parent_of(entries_or_none(carried_state(cx)), slot);
            let after = parent_of(entries_or_none(carried_state(tip)), slot);
            ||| after == before
            ||| slot != DEFAULT_SLOT && enabled.contains(slot) && table.live(slot) && continues(
                table.tracers@[slot as int]->0,
                name,
                attrs,
                before,
                after,
            )
        }),
{
    let (ran, _, _) = lemma_turns(
        table,
        enabled,
        child_only,
        tracer_name,
        name,
        attrs,
        cx,
        tip,
    );
    assert(slot_decided(table, enabled, child_only, cx, slot, ran.contains(slot)));
}

/// Named instrumentations do not touch the current span: where the default slot is not
/// enabled, the span that is sent to other processes stays the same.
pub proof fn lemma_named_slots_keep_the_current_span(
    table: SlotTable<Arc<BoxedTracer>>,
    enabled: Set<u8>,
    child_only: Set<u8>,
    tracer_name: &'static str,
    name: Seq<char>,
    attrs: Seq<KeyValue>,
    cx: Context,
    tip: Context,
)
    requires
        spans_started(table, enabled, child_only, tracer_name, name, attrs, cx, Some(tip)),
        !enabled.contains(DEFAULT_SLOT),
    ensures
        current_span(tip) == current_span(cx),
{
    let (ran, _, _) = lemma_turns(
        table,
        enabled,
        child_only,
        tracer_name,
        name,
        attrs,
        cx,
        tip,
    );
    assert(slot_decided(
        table,
        enabled,
        child_only,
        cx,
        DEFAULT_SLOT,
        ran.contains(DEFAULT_SLOT),
    ));
}

/// Where each slot occurs once among the entries that the current context carries, it does
/// so among those of the tip: the state has at most one entry per slot, however deep the
/// calls are nested.
pub proof fn lemma_each_slot_occurs_once(
    table: SlotTable<Arc<BoxedTracer>>,
    enabled: Set<u8>,
    child_only: Set<u8>,
    tracer_name: &'static str,
    name: Seq<char>,
    attrs: Seq<KeyValue>,
    cx: Context,
    tip: Context,
)
    requires
        spans_started(table, enabled, child_only, tracer_name, name, attrs, cx, Some(tip)),
        slots_distinct(entries_or_none(carried_state(cx))),
    ensures
        slots_distinct(entries_or_none(carried_state(tip))),
{
    lemma_turns(
        table,
        enabled,
        child_only,
        tracer_name,
        name,
        attrs,
        cx,
        tip,
    );
}

/// The first span of a named slot is made under a context without a span, whatever the
/// current span is.
pub proof fn lemma_first_span_of_a_named_slot_is_a_root(
    table: SlotTable<Arc<BoxedTracer>>,
    enabled: Set<u8>,
    child_only: Set<u8>,
    tracer_name: &'static str,
    name: Seq<char>,
    attrs: Seq<KeyValue>,
    cx: Context,
    tip: Context,
    slot: u8,
)
    requires
        spans_started(table, enabled, child_only, tracer_name, name, attrs, cx, Some(tip)),
        parent_of(entries_or_none(carried_state(cx)), slot) is None,
        parent_of(entries_or_none(carried_state(tip)), slot) is Some,
    ensures
        exists|base: Context|
            current_span(base) == (0u128, 0u64) && #[trigger] started(
                table.tracers@[slot as int]->0,
                name,
                attrs,
                base,
                parent_of(entries_or_none(carried_state(tip)), slot)->0,
            ),
{
    lemma_named_traces_are_isolated(
        table,
        enabled,
        child_only,
        tracer_name,
        name,
        attrs,
        cx,
        tip,
        slot,
    );
    let child = parent_of(entries_or_none(carried_state(tip)), slot)->0;
    let base = choose|base: Context|
        #[trigger] is_base(None, base) && started(
            table.tracers@[slot as int]->0,
            name,
            attrs,
            base,
            child,
        );
    lemma_root(base);
    assert(started(table.tracers@[slot as int]->0, name, attrs, base, child));
}

/// The span of the default instrumentation is made under the current span, and becomes the
/// current one.
pub proof fn lemma_default_span_is_current(
    table: SlotTable<Arc<BoxedTracer>>,
    enabled: Set<u8>,
    child_only: Set<u8>,
    tracer_name: &'static str,
    name: Seq<char>,
    attrs: Seq<KeyValue>,
    cx: Context,
    tip: Context,
)
    requires
        spans_started(table, enabled, child_only, tracer_name, name, attrs, cx, Some(tip)),
        enabled.contains(DEFAULT_SLOT),
        !child_only.contains(DEFAULT_SLOT),
    ensures
        exists|tracer: Arc<BoxedTracer>, builder: SpanBuilder, span: BoxedSpan|
            is_global_tracer(tracer_name, tracer) && describes(builder, name, attrs)
                && #[trigger] built(tracer, builder, cx, span) && current_span(tip) == span_ids(
                span,
            ),
{
    let (ran, base, _) = lemma_turns(
        table,
        enabled,
        child_only,
        tracer_name,
        name,
        attrs,
        cx,
        tip,
    );
    assert(slot_decided(
        table,
        enabled,
        child_only,
        cx,
        DEFAULT_SLOT,
        ran.contains(DEFAULT_SLOT),
    ));
    let tracer = choose|tracer: Arc<BoxedTracer>| #[trigger]
        is_global_tracer(tracer_name, tracer) && started(tracer, name, attrs, cx, base);
    let (builder, span) = choose|builder: SpanBuilder, span: BoxedSpan|
        describes(builder, name, attrs) && #[trigger] built(tracer, builder, cx, span)
            && #[trigger] attached(cx, span, base);
    lemma_attached(cx, span, base);
    assert(built(tracer, builder, cx, span));
}

/// How a named instrumentation that has the function enabled fares. Unless the function is
/// child-only for it, it gets a span. If it is, then what is asked is whether the span that
/// is active for the slot records: reported as recording, there is a span under it; reported
/// as not recording, there is none; and without an active span there is none either. A span
/// is a child of the active one, or the root of a trace if there is none.
///
/// The result tells whether there is a new span and, if so, the context that it was made
/// under, what was asked for and the answer of the tracer.
pub proof fn lemma_how_a_named_slot_fares(
    table: SlotTable<Arc<BoxedTracer>>,
    enabled: Set<u8>,
    child_only: Set<u8>,
    tracer_name: &'static str,
    name: Seq<char>,
    attrs: Seq<KeyValue>,
    cx: Context,
    tip: Option<Context>,
    slot: u8,
) -> (made: (bool, Context, SpanBuilder, BoxedSpan))
    requires
        spans_started(table, enabled, child_only, tracer_name, name, attrs, cx, tip),
        0 < slot < 64,
        enabled.contains(slot),
        table.tracers@[slot as int] is Some,
    ensures
        !child_only.contains(slot) ==> made.0,
        child_only.contains(slot) ==> match parent_of(entries_or_none(carried_state(cx)), slot) {
            Some(active) => reported(active, made.0),
            None => !made.0,
        },
        made.0 ==> {
            &&& tip is Some
            &&& parent_of(entries_or_none(carried_state(tip->0)), slot) is Some
            &&& match parent_of(entries_or_none(carried_state(cx)), slot) {
                Some(active) => made.1 == active,
                None => is_root(made.1) && !has_span(made.1) && current_span(made.1) == (
                    0u128,
                    0u64,
                ),
            }
            &&& builder_name(made.2) == name
            &&& attrs.len() > 0 ==> builder_attributes(made.2) == Some(attrs)
            &&& attrs.len() == 0 ==> builder_attributes(made.2) is None
            &&& built(table.tracers@[slot as int]->0, made.2, made.1, made.3)
            &&& attached(
                made.1,
                made.3,
                parent_of(entries_or_none(carried_state(tip->0)), slot)->0,
            )
        },
        !made.0 && tip is Some ==> parent_of(entries_or_none(carried_state(tip->0)), slot)
            == parent_of(entries_or_none(carried_state(cx)), slot),
{
    match tip {
        None => {
            let ran = choose|ran: Set<u8>|
                #[trigger] slots_decided(table, enabled, child_only, cx, ran) && match tip {
                    Some(tip) => ran != Set::<u8>::empty() && tip_of(
                        table,
                        ran,
                        tracer_name,
                        name,
                        attrs,
                        cx,
                        tip,
                    ),
                    None => ran == Set::<u8>::empty(),
                };
            assert(slot_decided(table, enabled, child_only, cx, slot, ran.contains(slot)));
            no_span()
        },
        Some(tip) => {
            let (ran, _, items) = lemma_turns(
                table,
                enabled,
                child_only,
                tracer_name,
                name,
                attrs,
                cx,
                tip,
            );
            assert(slot_decided(table, enabled, child_only, cx, slot, ran.contains(slot)));
            let before = parent_of(entries_or_none(carried_state(cx)), slot);
            let after = parent_of(items, slot);
            assert(entries_or_none(carried_state(tip)) == items);
            if ran.contains(slot) {
                let tracer = table.tracers@[slot as int]->0;
                assert(continues(tracer, name, attrs, before, after));
                let base = choose|base: Context|
                    #[trigger] is_base(before, base) && started(
                        tracer,
                        name,
                        attrs,
                        base,
                        after->0,
                    );
                if before is None {
                    lemma_root(base);
                }
                let (builder, span) = lemma_a_started_span_is_the_current_one(
                    tracer,
                    name,
                    attrs,
                    base,
                    after->0,
                );
                (true, base, builder, span)
            } else {
                assert(after == before);
                no_span()
            }
        },
    }
}

/// An answer that tells of no span.
spec fn no_span() -> (bool, Context, SpanBuilder, BoxedSpan) {
    (false, arbitrary(), arbitrary(), arbitrary())
}

/// How the default instrumentation fares if it has the function enabled. Unless the function
/// is child-only for it, it gets a span. If it is, then there is one exactly if the current
/// span is reported as recording. A span is one of the global tracer with the given name, a
/// child of the current span, and the current span of the call.
///
/// The result tells whether there is a new span and, if so, the tracer, what was asked for
/// and the answer.
pub proof fn lemma_how_the_default_slot_fares(
    table: SlotTable<Arc<BoxedTracer>>,
    enabled: Set<u8>,
    child_only: Set<u8>,
    tracer_name: &'static str,
    name: Seq<char>,
    attrs: Seq<KeyValue>,
    cx: Context,
    tip: Option<Context>,
) -> (made: (bool, Arc<BoxedTracer>, SpanBuilder, BoxedSpan))
    requires
        spans_started(table, enabled, child_only, tracer_name, name, attrs, cx, tip),
        enabled.contains(0),
    ensures
        !child_only.contains(0) ==> made.0,
        child_only.contains(0) ==> reported(cx, made.0),
        made.0 ==> {
            &&& tip is Some
            &&& is_global_tracer(tracer_name, made.1)
            &&& builder_name(made.2) == name
            &&& attrs.len() > 0 ==> builder_attributes(made.2) == Some(attrs)
            &&& attrs.len() == 0 ==> builder_attributes(made.2) is None
            &&& built(made.1, made.2, cx, made.3)
            &&& has_span(tip->0)
            &&& current_span(tip->0) == span_ids(made.3)
        },
        !made.0 && tip is Some ==> has_span(tip->0) == has_span(cx) && current_span(tip->0)
            == current_span(cx),
{
    match tip {
        None => {
            let ran = choose|ran: Set<u8>|
                #[trigger] slots_decided(table, enabled, child_only, cx, ran) && match tip {
                    Some(tip) => ran != Set::<u8>::empty() && tip_of(
                        table,
                        ran,
                        tracer_name,
                        name,
                        attrs,
                        cx,
                        tip,
                    ),
                    None => ran == Set::<u8>::empty(),
                };
            assert(slot_decided(table, enabled, child_only, cx, 0, ran.contains(0)));
            (false, arbitrary(), arbitrary(), arbitrary())
        },
        Some(tip) => {
            let (ran, base, _) = lemma_turns(
                table,
                enabled,
                child_only,
                tracer_name,
                name,
                attrs,
                cx,
                tip,
            );
            assert(slot_decided(table, enabled, child_only, cx, 0, ran.contains(0)));
            if ran.contains(0) {
                let tracer = choose|tracer: Arc<BoxedTracer>| #[trigger]
                    is_global_tracer(tracer_name, tracer) && started(
                        tracer,
                        name,
                        attrs,
                        cx,
                        base,
                    );
                let (builder, span) = lemma_a_started_span_is_the_current_one(
                    tracer,
                    name,
                    attrs,
                    cx,
                    base,
                );
                (true, tracer, builder, span)
            } else {
                (false, arbitrary(), arbitrary(), arbitrary())
            }
        },
    }
}

/// An instrumentation that does not have the function enabled has no part in the call: the
/// current span stays if it is the default one, and what is active for the slot stays if it
/// is a named one, as it does for one that has ended. What the call carries besides stays in
/// any case.
pub proof fn lemma_who_does_not_trace_leaves_no_mark(
    table: SlotTable<Arc<BoxedTracer>>,
    enabled: Set<u8>,
    child_only: Set<u8>,
    tracer_name: &'static str,
    name: Seq<char>,
    attrs: Seq<KeyValue>,
    cx: Context,
    tip: Context,
    slot: u8,
)
    requires
        spans_started(table, enabled, child_only, tracer_name, name, attrs, cx, Some(tip)),
    ensures
        !enabled.contains(0) ==> has_span(tip) == has_span(cx) && current_span(tip)
            == current_span(cx),
        !enabled.contains(slot) || slot == 0 || slot >= 64 || table.tracers@[slot as int] is None
            ==> parent_of(entries_or_none(carried_state(tip)), slot) == parent_of(
            entries_or_none(carried_state(cx)),
            slot,
        ),
        carried_parents(tip) == carried_parents(cx),
{
    let (ran, base, items) = lemma_turns(
        table,
        enabled,
        child_only,
        tracer_name,
        name,
        attrs,
        cx,
        tip,
    );
    assert(slot_decided(table, enabled, child_only, cx, 0, ran.contains(0)));
    assert(slot_decided(table, enabled, child_only, cx, slot, ran.contains(slot)));
    assert(entries_or_none(carried_state(tip)) == items);
    let after = parent_of(items, slot);
    if ran.contains(0) {
        let tracer = choose|tracer: Arc<BoxedTracer>| #[trigger]
            is_global_tracer(tracer_name, tracer) && started(tracer, name, attrs, cx, base);
        lemma_a_started_span_is_the_current_one(tracer, name, attrs, cx, base);
    }
}

/// A call is traced only on behalf of somebody: there is a slot that has the function enabled
/// and, but for the default one, a tracer, and for which the function is either not
/// child-only or under a span that is reported as recording.
pub proof fn lemma_a_call_is_traced_for_somebody(
    table: SlotTable<Arc<BoxedTracer>>,
    enabled: Set<u8>,
    child_only: Set<u8>,
    tracer_name: &'static str,
    name: Seq<char>,
    attrs: Seq<KeyValue>,
    cx: Context,
    tip: Context,
) -> (slot: u8)
    requires
        spans_started(table, enabled, child_only, tracer_name, name, attrs, cx, Some(tip)),
    ensures
        enabled.contains(slot),
        slot == 0 || (slot < 64 && table.tracers@[slot as int] is Some),
        child_only.contains(slot) && slot == 0 ==> reported(cx, true),
        child_only.contains(slot) && slot != 0 ==> (parent_of(
            entries_or_none(carried_state(cx)),
            slot,
        ) matches Some(active) && reported(active, true)),
{
    let (ran, _, _) = lemma_turns(
        table,
        enabled,
        child_only,
        tracer_name,
        name,
        attrs,
        cx,
        tip,
    );
    assert(exists|slot: u8| ran.contains(slot)) by {
        if forall|slot: u8| !ran.contains(slot) {
            assert(ran =~= Set::<u8>::empty());
        }
    }
    let slot = choose|slot: u8| ran.contains(slot);
    assert(slot_decided(table, enabled, child_only, cx, slot, ran.contains(slot)));
    slot
}

/// A call that starts spans does so by the masks of the function, in the context given.
pub proof fn lemma_start_spans_in_goes_by_the_masks(
    table: SlotTable<Arc<BoxedTracer>>,
    enabled_mask: u64,
    child_only_mask: u64,
    span_name: &'static str,
    default_tracer_name: &'static str,
    attrs: Vec<KeyValue>,
    cx: Context,
    tip: Option<Context>,
)
    requires
        call_ensures(
            start_spans_in,
            (
                &table,
                enabled_mask,
                child_only_mask,
                span_name,
                default_tracer_name,
                &attrs,
                cx,
            ),
            tip,
        ),
    ensures
        spans_started(
            table,
            slot_set(enabled_mask),
            slot_set(child_only_mask),
            default_tracer_name,
            span_name@,
            attrs@,
            cx,
            tip,
        ),
{
}

/// A call that starts spans does so by the masks of the function, in the context that is
/// current on its thread.
pub proof fn lemma_start_spans_goes_by_the_masks(
    table: SlotTable<Arc<BoxedTracer>>,
    enabled_mask: u64,
    child_only_mask: u64,
    span_name: &'static str,
    default_tracer_name: &'static str,
    attrs: Vec<KeyValue>,
    tip: Option<Context>,
) -> (cx: Context)
    requires
        call_ensures(
            start_spans,
            (&table, enabled_mask, child_only_mask, span_name, default_tracer_name, attrs),
            tip,
        ),
    ensures
        is_current(cx),
        spans_started(
            table,
            slot_set(enabled_mask),
            slot_set(child_only_mask),
            default_tracer_name,
            span_name@,
            attrs@,
            cx,
            tip,
        ),
{
    choose|cx: Context| #[trigger]
        is_current(cx) && spans_started(
            table,
            slot_set(enabled_mask),
            slot_set(child_only_mask),
            default_tracer_name,
            span_name@,
            attrs@,
            cx,
            tip,
        )
}

/// Whether a function gets a span depends on nothing but this: it gets one unless it is
/// child-only, and then one exactly under a recording span.
pub proof fn lemma_only_child_only_waits_for_a_recording_span(
    recording: bool,
    free: bool,
    bound: bool,
)
    requires
        call_ensures(may_start, (false, recording), free),
        call_ensures(may_start, (true, recording), bound),
    ensures
        free,
        bound == recording,
{
}

} // verus!
