//! Calls of traced functions, from the masks of their sites to the spans that reach an
//! exporter.
//!
//! Every test has a world of its own: a registry with one site per function below, and
//! a table of slots. A function asks its site which slots trace it and starts a span for
//! each of them, as `#[traceable]` would have it.

use std::cell::RefCell;
use std::collections::HashMap;
use std::future::Future;
use std::sync::Arc;

use opentelemetry::global::BoxedTracer;
use opentelemetry::propagation::TextMapPropagator;
use opentelemetry::trace::{
    FutureExt, SpanContext, SpanId, TraceContextExt, TraceFlags, TraceId, TracerProvider as _,
};
use opentelemetry::{Context, KeyValue};
use opentelemetry_sdk::propagation::TraceContextPropagator;
use opentelemetry_sdk::trace::{InMemorySpanExporter, SdkTracer, SdkTracerProvider};
use opentelemetry_traceable::instrumentation::context::InProcessParents;
use opentelemetry_traceable::instrumentation::slots::Slots;
use opentelemetry_traceable::instrumentation::{
    start_spans, BuildError, Instrumentation, MAX_INSTRUMENTATIONS,
};
use opentelemetry_traceable::registry::{keys, Registry, TraceSite};
use opentelemetry_traceable::selector::{Selection, UnknownKeys};
use opentelemetry_traceable::traceable::{route, Route};

/// The sites of the functions below, each by its registry key.
const PLAIN: usize = 0;
const NAMED: usize = 1;
const WITH_FIELDS: usize = 2;
const PLAIN_ASYNC: usize = 3;
const PARENT: usize = 4;
const CHILD: usize = 5;
const SHARED_ROOT: usize = 6;
const SHARED_LEAF: usize = 7;
const SHARED_ASYNC_ROOT: usize = 8;
const SHARED_ASYNC_LEAF: usize = 9;
const PROBE_AMBIENT: usize = 10;
const PROBE_INJECT: usize = 11;
const RENDER: usize = 12;
const LEFT_SHARED_METHOD: usize = 13;
const RIGHT_SHARED_METHOD: usize = 14;

struct World {
    registry: RefCell<Registry>,
    slots: RefCell<Slots<Arc<BoxedTracer>>>,
}

/// An instrumentation of a world. It ends when it is dropped.
struct Handle<'w> {
    world: &'w World,
    live: Option<Instrumentation>,
}

impl Handle<'_> {
    fn live(&self) -> &Instrumentation {
        self.live.as_ref().unwrap()
    }

    fn enable(&self, selectors: &[&str]) -> Result<Selection, UnknownKeys> {
        self.live().enable(&mut self.world.registry.borrow_mut(), selectors)
    }

    fn disable(&self, selectors: &[&str]) -> Result<Selection, UnknownKeys> {
        self.live().disable(&mut self.world.registry.borrow_mut(), selectors)
    }

    fn set_enabled(&self, selectors: &[&str]) -> Result<Selection, UnknownKeys> {
        self.live().set_enabled(&mut self.world.registry.borrow_mut(), selectors)
    }

    fn is_distributed(&self) -> bool {
        self.live().is_distributed(&self.world.slots.borrow())
    }
}

impl Drop for Handle<'_> {
    fn drop(&mut self) {
        if let Some(live) = self.live.take() {
            live.release(
                &mut self.world.registry.borrow_mut(),
                &mut self.world.slots.borrow_mut(),
            );
        }
    }
}

/// The enabled keys of an instrumentation.
fn enabled(instr: &Handle) -> Vec<&'static str> {
    instr.live().enabled_names(&instr.world.registry.borrow())
}

/// Runs a future to its end.
fn run<T>(future: impl Future<Output = T>) -> T {
    tokio::runtime::Builder::new_current_thread().build().unwrap().block_on(future)
}

fn boxed(tracer: SdkTracer) -> Arc<BoxedTracer> {
    Arc::new(BoxedTracer::new(Box::new(tracer)))
}

impl World {
    fn new() -> World {
        World {
            registry: RefCell::new(Registry::new(vec![
                TraceSite::new("traceable::plain"),
                TraceSite::new("custom.span"),
                TraceSite::new("traceable::with_fields"),
                TraceSite::new("traceable::plain_async"),
                TraceSite::new("nesting::parent"),
                TraceSite::new("nesting::child"),
                TraceSite::new("shared::root"),
                TraceSite::new("shared::leaf"),
                TraceSite::new("shared::async_root"),
                TraceSite::new("shared::async_leaf"),
                TraceSite::new("probe::ambient"),
                TraceSite::new("probe::inject"),
                TraceSite::new("widget::render"),
                TraceSite::new("traceable::shared_method"),
                TraceSite::new("traceable::shared_method"),
            ])),
            slots: RefCell::new(Slots::default()),
        }
    }

    fn keys(&self) -> Vec<&'static str> {
        keys(&self.registry.borrow())
    }

    fn site_names(&self) -> Vec<&'static str> {
        self.registry.borrow().sites.iter().map(|site| site.name).collect()
    }

    /// An in-process instrumentation with an exporter of its own.
    fn instr(&self, name: &'static str) -> (Handle<'_>, InMemorySpanExporter) {
        let exporter = InMemorySpanExporter::default();
        let provider = SdkTracerProvider::builder()
            .with_simple_exporter(exporter.clone())
            .build();
        let live = Instrumentation::builder()
            .name(name.to_string())
            .tracer(boxed(provider.tracer(name)))
            .build(&mut self.slots.borrow_mut())
            .expect("a free instrumentation slot");
        (Handle { world: self, live: Some(live) }, exporter)
    }

    /// As [`World::instr`], but distributed.
    fn distributed_instr(&self, name: &'static str) -> (Handle<'_>, InMemorySpanExporter) {
        let exporter = InMemorySpanExporter::default();
        let provider = SdkTracerProvider::builder()
            .with_simple_exporter(exporter.clone())
            .build();
        let live = self
            .build_distributed(name, provider.tracer(name))
            .expect("a free instrumentation slot and no other distributed instrumentation");
        (Handle { world: self, live: Some(live) }, exporter)
    }

    fn build_distributed(
        &self,
        name: &'static str,
        tracer: SdkTracer,
    ) -> Result<Instrumentation, BuildError> {
        Instrumentation::builder()
            .name(name.to_string())
            .tracer(boxed(tracer))
            .distributed()
            .build(&mut self.slots.borrow_mut())
    }

    /// The context of a call of the function at a site, if anybody traces it.
    fn context(&self, site: usize, name: &'static str, attrs: Vec<KeyValue>) -> Option<Context> {
        let mask = self.registry.borrow().sites[site].enabled_mask;
        match route(mask) {
            Route::Plain => None,
            Route::Traced => start_spans(&self.slots.borrow(), mask, name, attrs),
        }
    }

    fn traced<T>(
        &self,
        site: usize,
        name: &'static str,
        attrs: Vec<KeyValue>,
        body: impl FnOnce() -> T,
    ) -> T {
        match self.context(site, name, attrs) {
            None => body(),
            Some(cx) => {
                let _guard = cx.attach();
                body()
            }
        }
    }

    async fn traced_async<T>(
        &self,
        site: usize,
        name: &'static str,
        body: impl Future<Output = T>,
    ) -> T {
        match self.context(site, name, vec![]) {
            None => body.await,
            Some(cx) => body.with_context(cx).await,
        }
    }

    fn plain(&self, x: u64) -> u64 {
        self.traced(PLAIN, "plain", vec![], || x + 1)
    }

    fn named(&self) -> u64 {
        self.traced(NAMED, "custom.span", vec![], || 42)
    }

    fn with_fields(&self, id: String) -> String {
        let attrs = vec![
            KeyValue::new("component", "proxy"),
            KeyValue::new("request_id", id.clone()),
        ];
        self.traced(WITH_FIELDS, "with_fields", attrs, || id)
    }

    async fn plain_async(&self, x: u64) -> u64 {
        self.traced_async(PLAIN_ASYNC, "plain_async", async { x + 1 }).await
    }

    fn parent(&self) -> u64 {
        self.traced(PARENT, "nesting::parent", vec![], || self.child())
    }

    fn child(&self) -> u64 {
        self.traced(CHILD, "nesting::child", vec![], || 7)
    }

    fn shared_root(&self) -> u64 {
        self.traced(SHARED_ROOT, "shared::root", vec![], || self.shared_leaf())
    }

    fn shared_leaf(&self) -> u64 {
        self.traced(SHARED_LEAF, "shared::leaf", vec![], || 5)
    }

    async fn shared_async_root(&self) -> u64 {
        self.traced_async(SHARED_ASYNC_ROOT, "shared::async_root", self.shared_async_leaf()).await
    }

    async fn shared_async_leaf(&self) -> u64 {
        self.traced_async(SHARED_ASYNC_LEAF, "shared::async_leaf", async { 5 }).await
    }

    /// Whether the current context has a valid span while the function runs.
    fn probe_ambient(&self) -> bool {
        self.traced(PROBE_AMBIENT, "probe::ambient", vec![], || {
            Context::current().span().span_context().is_valid()
        })
    }

    /// What a propagator would send along while the function runs.
    fn probe_inject(&self) -> HashMap<String, String> {
        self.traced(PROBE_INJECT, "probe::inject", vec![], || {
            let mut carrier = HashMap::new();
            TraceContextPropagator::new().inject_context(&Context::current(), &mut carrier);
            carrier
        })
    }

    fn render(&self) -> u64 {
        self.traced(RENDER, "widget::render", vec![], || 99)
    }

    fn left_shared_method(&self) -> u64 {
        self.traced(LEFT_SHARED_METHOD, "shared_method", vec![], || 1)
    }

    fn right_shared_method(&self) -> u64 {
        self.traced(RIGHT_SHARED_METHOD, "shared_method", vec![], || 2)
    }
}

/// A valid remote span context, as a propagator takes it from an incoming request.
fn remote_parent() -> SpanContext {
    SpanContext::new(
        TraceId::from_bytes([
            0x0b, 0xad, 0xc0, 0xde, 0xde, 0xad, 0xbe, 0xef, 0x01, 0x02, 0x03, 0x04, 0x05, 0x06,
            0x07, 0x08,
        ]),
        SpanId::from_bytes([0, 0, 0, 0, 0, 0, 0, 0x42]),
        TraceFlags::SAMPLED,
        true,
        Default::default(),
    )
}

#[test]
fn disabled_by_default_emits_no_span() {
    let world = World::new();
    let (_instr, exporter) = world.instr("A");

    let result = world.plain(1);

    assert_eq!(result, 2);
    assert!(exporter.get_finished_spans().unwrap().is_empty());
}

#[test]
fn enabling_emits_a_span_with_default_name() {
    let world = World::new();
    let (instr, exporter) = world.instr("A");
    instr.enable(&["traceable::plain"]).unwrap();

    let result = world.plain(1);

    assert_eq!(result, 2);
    let spans = exporter.get_finished_spans().unwrap();
    assert_eq!(spans.len(), 1);
    assert_eq!(spans[0].name, "plain");
}

#[test]
fn custom_span_name_and_the_instrumentations_tracer_scope() {
    let world = World::new();
    let (instr, exporter) = world.instr("test-tracer");
    instr.enable(&["custom.span"]).unwrap();

    let result = world.named();

    assert_eq!(result, 42);
    let spans = exporter.get_finished_spans().unwrap();
    assert_eq!(spans.len(), 1);
    assert_eq!(spans[0].name, "custom.span");
    // The scope comes from the instrumentation's own tracer: a call site has no say
    // in it.
    assert_eq!(spans[0].instrumentation_scope.name(), "test-tracer");
}

#[test]
fn fields_become_span_attributes() {
    let world = World::new();
    let (instr, exporter) = world.instr("A");
    instr
        .enable(&["traceable::with_fields"])
        .unwrap();

    let result = world.with_fields("abc".to_string());

    assert_eq!(result, "abc");
    let spans = exporter.get_finished_spans().unwrap();
    assert_eq!(spans.len(), 1);
    let attrs = &spans[0].attributes;
    assert!(
        attrs
            .iter()
            .any(|kv| kv.key.as_str() == "component" && kv.value.as_str() == "proxy")
    );
    assert!(
        attrs
            .iter()
            .any(|kv| kv.key.as_str() == "request_id" && kv.value.as_str() == "abc")
    );
}

#[test]
fn async_function_is_instrumented_when_enabled() {
    let world = World::new();
    let (instr, exporter) = world.instr("A");
    instr
        .enable(&["traceable::plain_async"])
        .unwrap();

    let result = run(world.plain_async(1));

    assert_eq!(result, 2);
    let spans = exporter.get_finished_spans().unwrap();
    assert_eq!(spans.len(), 1);
    assert_eq!(spans[0].name, "plain_async");
}

#[test]
fn nested_spans_share_a_trace_and_correct_parent() {
    let world = World::new();
    let (instr, exporter) = world.instr("A");
    instr
        .enable(&["nesting::parent", "nesting::child"])
        .unwrap();

    let result = world.parent();

    assert_eq!(result, 7);
    let spans = exporter.get_finished_spans().unwrap();
    assert_eq!(spans.len(), 2);
    let child_span = spans.iter().find(|s| s.name == "nesting::child").unwrap();
    let parent_span = spans.iter().find(|s| s.name == "nesting::parent").unwrap();
    assert_eq!(
        child_span.parent_span_id,
        parent_span.span_context.span_id()
    );
    assert_eq!(
        child_span.span_context.trace_id(),
        parent_span.span_context.trace_id()
    );
}

#[test]
fn disabling_parent_does_not_suppress_enabled_child() {
    let world = World::new();
    let (instr, exporter) = world.instr("A");
    // Only the child is enabled -- the parent function still runs (and still
    // calls the child) but must not itself be wrapped in a span, and must not
    // prevent the child's span from being recorded.
    instr.enable(&["nesting::child"]).unwrap();

    let result = world.parent();

    assert_eq!(result, 7);
    let spans = exporter.get_finished_spans().unwrap();
    assert_eq!(spans.len(), 1);
    assert_eq!(spans[0].name, "nesting::child");
}

#[test]
fn method_inside_impl_block_is_instrumented() {
    let world = World::new();
    let (instr, exporter) = world.instr("A");
    instr.enable(&["widget::render"]).unwrap();

    let result = world.render();

    assert_eq!(result, 99);
    let spans = exporter.get_finished_spans().unwrap();
    assert_eq!(spans.len(), 1);
    assert_eq!(spans[0].name, "widget::render");
}

#[test]
fn set_enabled_replaces_the_active_subset() {
    let world = World::new();
    let (instr, exporter) = world.instr("A");
    instr
        .enable(&["traceable::plain", "custom.span"])
        .unwrap();
    instr.set_enabled(&["custom.span"]).unwrap();

    world.plain(1);
    world.named();

    let spans = exporter.get_finished_spans().unwrap();
    assert_eq!(spans.len(), 1);
    assert_eq!(spans[0].name, "custom.span");
}

#[test]
fn registry_discovers_all_traceable_functions_in_this_binary() {
    let world = World::new();
    let names: std::collections::HashSet<_> = world
        .keys()
        .iter()
        .copied()
        .collect();
    assert!(names.contains("custom.span"));
    assert!(names.contains("nesting::parent"));
    assert!(names.contains("nesting::child"));
    assert!(names.contains("widget::render"));
}

#[test]
fn enabled_names_reflects_the_active_subset() {
    let world = World::new();
    let (instr, _exporter) = world.instr("A");
    instr
        .enable(&["nesting::parent", "nesting::child"])
        .unwrap();

    assert_eq!(enabled(&instr), ["nesting::child", "nesting::parent"]);
}

#[test]
fn one_instrumentation_disabling_a_site_leaves_the_others_alone() {
    let world = World::new();
    let (a, exporter_a) = world.instr("A");
    let (b, exporter_b) = world.instr("B");

    a.enable(&["nesting::child"]).unwrap();
    b.enable(&["nesting::child"]).unwrap();
    assert_eq!(enabled(&a), ["nesting::child"]);
    assert_eq!(enabled(&b), ["nesting::child"]);

    a.disable(&["nesting::child"]).unwrap();

    assert!(
        enabled(&a).is_empty(),
        "A disabled it, so A must see nothing"
    );
    assert_eq!(
        enabled(&b),
        ["nesting::child"],
        "B never disabled it, so B must be untouched"
    );

    world.child();
    assert!(
        exporter_a.get_finished_spans().unwrap().is_empty(),
        "A must collect no span after disabling"
    );
    assert_eq!(
        exporter_b.get_finished_spans().unwrap().len(),
        1,
        "B must still collect its span"
    );
}

#[test]
fn repeated_reconfiguration_leaves_no_stale_state() {
    let world = World::new();
    let (instr, exporter) = world.instr("A");

    for _ in 0..50 {
        instr.set_enabled(&["nesting::parent"]).unwrap();
        assert_eq!(enabled(&instr), ["nesting::parent"]);

        instr.set_enabled(&["nesting::child"]).unwrap();
        assert_eq!(enabled(&instr), ["nesting::child"]);

        instr.set_enabled(&[]).unwrap();
        assert!(enabled(&instr).is_empty());
    }

    // Nothing traced during the loop, so the final state alone decides what runs.
    instr.set_enabled(&["nesting::child"]).unwrap();
    world.parent();

    let spans = exporter.get_finished_spans().unwrap();
    assert_eq!(spans.len(), 1, "only the last configuration should apply");
    assert_eq!(spans[0].name, "nesting::child");
}

#[test]
fn set_enabled_toggles_spans_by_key() {
    let world = World::new();
    let (instr, exporter) = world.instr("A");

    instr.set_enabled(&["nesting::child"]).unwrap();
    let result = world.parent();

    assert_eq!(result, 7);
    let spans = exporter.get_finished_spans().unwrap();
    assert_eq!(spans.len(), 1);
    assert_eq!(spans[0].name, "nesting::child");
}

#[test]
fn enable_and_disable_are_additive_and_subtractive() {
    let world = World::new();
    let (instr, exporter) = world.instr("A");

    instr
        .enable(&["nesting::parent", "nesting::child"])
        .unwrap();
    instr.disable(&["nesting::parent"]).unwrap();
    let result = world.parent();

    assert_eq!(result, 7);
    let spans = exporter.get_finished_spans().unwrap();
    assert_eq!(spans.len(), 1);
    assert_eq!(spans[0].name, "nesting::child");
}

#[test]
fn a_glob_enables_every_key_beneath_it() {
    let world = World::new();
    let (instr, exporter) = world.instr("A");
    let selection = instr.set_enabled(&["nesting::*"]).unwrap();

    assert_eq!(selection.keys, ["nesting::child", "nesting::parent"]);
    world.parent();

    let mut names: Vec<String> = exporter
        .get_finished_spans()
        .unwrap()
        .iter()
        .map(|span| span.name.to_string())
        .collect();
    names.sort();
    assert_eq!(names, ["nesting::child", "nesting::parent"]);
}

#[test]
fn a_bare_glob_selects_the_same_set_as_enable_all() {
    let world = World::new();
    let (via_glob, _exporter) = world.instr("A");
    via_glob.set_enabled(&["*"]).unwrap();
    let through_glob = enabled(&via_glob);

    assert_eq!(through_glob, world.keys());
}

#[test]
fn an_empty_selector_list_clears_everything() {
    let world = World::new();
    let (instr, exporter) = world.instr("A");
    instr.enable(&["nesting::*"]).unwrap();

    let cleared = instr.set_enabled(&[]).unwrap();

    assert!(cleared.keys.is_empty());
    assert!(enabled(&instr).is_empty());
    world.parent();
    assert!(exporter.get_finished_spans().unwrap().is_empty());
}

#[test]
fn a_glob_matching_nothing_is_reported_but_applies_the_rest() {
    let world = World::new();
    let (instr, _exporter) = world.instr("A");

    let selection = instr
        .enable(&["nesting::parent", "no::such::module::*"])
        .unwrap();

    assert_eq!(selection.unmatched_patterns, ["no::such::module::*"]);
    assert_eq!(enabled(&instr), ["nesting::parent"]);
}

#[test]
fn an_unknown_exact_key_is_rejected_and_leaves_the_subset_untouched() {
    let world = World::new();
    let (instr, _exporter) = world.instr("A");
    instr.enable(&["nesting::parent"]).unwrap();

    // The reason resolution happens before any bit is touched: one typo must not
    // partially apply the rest of the list.
    let error = instr
        .set_enabled(&["nesting::child", "nesting::typo"])
        .expect_err("`nesting::typo` is not a registry key");

    assert_eq!(error.keys, ["nesting::typo"]);
    assert_eq!(
        enabled(&instr),
        ["nesting::parent"],
        "a rejected selection must leave the previous subset in place"
    );
}

#[test]
fn two_sites_sharing_a_key_toggle_together() {
    let world = World::new();
    let (instr, exporter) = world.instr("A");
    let key = "traceable::shared_method";

    // One selector, two call sites -- the flat registry walk matches both because
    // they carry the same string.
    let selection = instr.set_enabled(&[key]).unwrap();
    assert_eq!(
        selection.keys,
        [key],
        "a shared key is one selectable thing, listed once"
    );

    assert_eq!(world.left_shared_method() + world.right_shared_method(), 3);

    let spans = exporter.get_finished_spans().unwrap();
    assert_eq!(spans.len(), 2, "both call sites must have been enabled");
    // The *span* name is the bare fn name; `key` is the module-qualified registry
    // key that selects it. Both sites produce the same span name here too.
    assert!(spans.iter().all(|span| span.name == "shared_method"));
    assert_eq!(
        enabled(&instr),
        [key],
        "and it must still be reported only once"
    );
}

#[test]
fn keys_are_the_sorted_deduped_registry_keys() {
    let world = World::new();
    let keys = world.keys();

    let mut expected: Vec<&str> = world.site_names();
    expected.sort_unstable();
    expected.dedup();
    assert_eq!(keys, expected);

    assert!(
        keys.windows(2).all(|pair| pair[0] < pair[1]),
        "keys must be strictly increasing, i.e. sorted and de-duplicated"
    );
}

#[test]
fn in_process_spans_never_land_in_the_ambient_context_span_slot() {
    let world = World::new();
    let (instr, exporter) = world.instr("A");
    instr.enable(&["probe::ambient"]).unwrap();

    // The probe reports what it sees in `Context::current().span()` from inside
    // its own traced body. A span *was* created for it (asserted below), but it
    // lives in the extension envelope, so the span slot stays empty -- which is
    // exactly why outbound `traceparent` injection carries nothing from an
    // in-process instrumentation.
    let saw_ambient_span = world.probe_ambient();

    assert!(
        !saw_ambient_span,
        "an in-process span must not occupy Context's span slot"
    );
    assert_eq!(exporter.get_finished_spans().unwrap().len(), 1);
}

#[test]
fn in_process_spans_are_not_injected_into_an_outbound_carrier() {
    let world = World::new();
    let (instr, exporter) = world.instr("A");
    instr.enable(&["probe::inject"]).unwrap();

    let carrier = world.probe_inject();

    assert_eq!(exporter.get_finished_spans().unwrap().len(), 1);
    assert!(
        !carrier.contains_key("traceparent"),
        "a propagator reads Context's span slot, which an in-process span never occupies"
    );
}

#[test]
fn in_process_does_not_join_an_ambient_incoming_parent() {
    let world = World::new();
    let (instr, exporter) = world.instr("A");
    instr.enable(&["nesting::parent"]).unwrap();

    let remote = remote_parent();
    let guard = Context::current()
        .with_remote_span_context(remote.clone())
        .attach();

    let _ = world.parent();
    drop(guard);

    let spans = exporter.get_finished_spans().unwrap();
    assert_eq!(spans.len(), 1);
    assert_ne!(
        spans[0].span_context.trace_id(),
        remote.trace_id(),
        "an in-process instrumentation roots its own trace rather than joining the ambient one"
    );
    assert_eq!(
        spans[0].parent_span_id,
        SpanId::INVALID,
        "the ambient remote parent must not be adopted"
    );
}

#[test]
fn distributed_joins_an_incoming_remote_parent() {
    let world = World::new();
    let (instr, exporter) = world.distributed_instr("edge");
    instr.enable(&["nesting::parent"]).unwrap();
    assert!(instr.is_distributed());

    // Stands in for a propagator-extracted incoming `traceparent`, or a web
    // framework's server span: a valid span context in the ambient span slot.
    let remote = remote_parent();
    let guard = Context::current()
        .with_remote_span_context(remote.clone())
        .attach();

    let _ = world.parent();
    drop(guard);

    let spans = exporter.get_finished_spans().unwrap();
    assert_eq!(spans.len(), 1);
    assert_eq!(
        spans[0].span_context.trace_id(),
        remote.trace_id(),
        "a distributed instrumentation continues the incoming trace"
    );
    assert_eq!(
        spans[0].parent_span_id,
        remote.span_id(),
        "and hangs off the incoming span"
    );
}

#[test]
fn distributed_span_becomes_the_ambient_current_span() {
    let world = World::new();
    let (instr, exporter) = world.distributed_instr("edge");
    instr.enable(&["probe::ambient"]).unwrap();

    // The mirror of the in-process case above: the span goes *into* the slot a
    // propagator injects from, which is what makes outbound propagation work.
    let saw_ambient_span = world.probe_ambient();

    assert!(
        saw_ambient_span,
        "a distributed span must be the current span for the wrapped call"
    );
    assert_eq!(exporter.get_finished_spans().unwrap().len(), 1);
}

#[test]
fn distributed_spans_are_injected_into_an_outbound_carrier() {
    let world = World::new();
    let (instr, exporter) = world.distributed_instr("edge");
    instr.enable(&["probe::inject"]).unwrap();

    let carrier = world.probe_inject();

    let spans = exporter.get_finished_spans().unwrap();
    assert_eq!(spans.len(), 1);
    let traceparent = carrier
        .get("traceparent")
        .expect("a distributed span must be injected by an ordinary propagator");
    // `00-<trace_id>-<span_id>-<flags>`: the downstream service continues *this*
    // span, with no propagator code in this crate.
    assert!(
        traceparent.contains(&format!("{:032x}", spans[0].span_context.trace_id())),
        "carried the wrong trace: {traceparent}"
    );
    assert!(
        traceparent.contains(&format!("{:016x}", spans[0].span_context.span_id())),
        "carried the wrong span: {traceparent}"
    );
}

#[test]
fn distributed_nests_through_the_ambient_span_slot() {
    let world = World::new();
    let (instr, exporter) = world.distributed_instr("edge");
    instr
        .enable(&["nesting::parent", "nesting::child"])
        .unwrap();

    assert_eq!(world.parent(), 7);

    let spans = exporter.get_finished_spans().unwrap();
    assert_eq!(spans.len(), 2);
    let child_span = spans.iter().find(|s| s.name == "nesting::child").unwrap();
    let parent_span = spans.iter().find(|s| s.name == "nesting::parent").unwrap();
    assert_eq!(
        child_span.parent_span_id,
        parent_span.span_context.span_id()
    );
    assert_eq!(
        child_span.span_context.trace_id(),
        parent_span.span_context.trace_id()
    );
}

#[test]
fn distributed_nesting_survives_await_points() {
    let world = World::new();
    let (instr, exporter) = world.distributed_instr("edge");
    instr
        .enable(&["shared::async_root", "shared::async_leaf"])
        .unwrap();

    assert_eq!(run(world.shared_async_root()), 5);

    let spans = exporter.get_finished_spans().unwrap();
    assert_eq!(spans.len(), 2);
    let leaf = spans
        .iter()
        .find(|s| s.name == "shared::async_leaf")
        .unwrap();
    let root = spans
        .iter()
        .find(|s| s.name == "shared::async_root")
        .unwrap();
    assert_eq!(leaf.parent_span_id, root.span_context.span_id());
    assert_eq!(leaf.span_context.trace_id(), root.span_context.trace_id());
}

#[test]
fn only_one_distributed_instrumentation_may_be_live() {
    let world = World::new();
    let (first, _exporter) = world.distributed_instr("edge");

    let second = world.build_distributed(
        "second-edge",
        SdkTracerProvider::builder().build().tracer("second-edge"),
    );

    assert_eq!(
        second.err(),
        Some(BuildError::DistributedAlreadyLive),
        "two of them would fight over Context's single span slot"
    );
    assert!(first.is_distributed());

    // An in-process one is unaffected -- the limit is on the role, not on slots.
    let (in_process, _exp) = world.instr("A");
    assert!(!in_process.is_distributed());
}

#[test]
fn dropping_a_distributed_instrumentation_releases_the_role() {
    let world = World::new();
    // Hot-reload rebuilds an instrumentation whenever its tracer or endpoint
    // changes, so the role has to come back with the slot.
    for _ in 0..3 {
        let (instr, exporter) = world.distributed_instr("edge");
        instr.enable(&["nesting::child"]).unwrap();
        let _ = world.child();
        assert_eq!(exporter.get_finished_spans().unwrap().len(), 1);
        drop(instr);
    }
}

#[test]
fn a_distributed_and_an_in_process_instrumentation_stay_isolated() {
    let world = World::new();
    let (dist, exp_dist) = world.distributed_instr("edge");
    let (local, exp_local) = world.instr("A");

    dist.enable(&["nesting::parent", "nesting::child"]).unwrap();
    local
        .enable(&["nesting::parent", "nesting::child"])
        .unwrap();

    // An incoming trace the distributed one must join and the in-process one
    // must ignore.
    let remote = remote_parent();
    let guard = Context::current()
        .with_remote_span_context(remote.clone())
        .attach();
    let _ = world.parent();
    drop(guard);

    let spans_dist = exp_dist.get_finished_spans().unwrap();
    let spans_local = exp_local.get_finished_spans().unwrap();
    assert_eq!(spans_dist.len(), 2);
    assert_eq!(spans_local.len(), 2);

    assert!(
        spans_dist
            .iter()
            .all(|s| s.span_context.trace_id() == remote.trace_id()),
        "the distributed instrumentation joins the incoming trace"
    );
    assert!(
        spans_local
            .iter()
            .all(|s| s.span_context.trace_id() != remote.trace_id()),
        "the in-process one is untouched by the distributed span in the ambient slot"
    );

    // The in-process child parents to the in-process parent, not to the
    // distributed span that was current at the time.
    let local_child = spans_local
        .iter()
        .find(|s| s.name == "nesting::child")
        .unwrap();
    let local_parent = spans_local
        .iter()
        .find(|s| s.name == "nesting::parent")
        .unwrap();
    assert_eq!(
        local_child.parent_span_id,
        local_parent.span_context.span_id()
    );
}

#[test]
fn two_instrumentations_isolate_their_spans_and_traces() {
    let world = World::new();
    let (a, exp_a) = world.instr("A");
    let (b, exp_b) = world.instr("B");

    // Overlapping enabled sets: both trace the parent, only A traces the child.
    a.enable(&["nesting::parent", "nesting::child"]).unwrap();
    b.enable(&["nesting::parent"]).unwrap();

    let _ = world.parent();

    let spans_a = exp_a.get_finished_spans().unwrap();
    let spans_b = exp_b.get_finished_spans().unwrap();

    let names_a: std::collections::HashSet<_> = spans_a.iter().map(|s| s.name.as_ref()).collect();
    let names_b: std::collections::HashSet<_> = spans_b.iter().map(|s| s.name.as_ref()).collect();
    assert_eq!(names_a, ["nesting::parent", "nesting::child"].into());
    assert_eq!(names_b, ["nesting::parent"].into());

    // No trace ID ever crosses between the two exporters.
    let traces_a: std::collections::HashSet<_> =
        spans_a.iter().map(|s| s.span_context.trace_id()).collect();
    let traces_b: std::collections::HashSet<_> =
        spans_b.iter().map(|s| s.span_context.trace_id()).collect();
    assert!(traces_a.is_disjoint(&traces_b));
}

#[test]
fn each_instrumentation_nests_independently() {
    let world = World::new();
    let (a, exp_a) = world.instr("A");
    let (b, exp_b) = world.instr("B");

    // A traces one parent/child pair, B a different one.
    a.enable(&["nesting::parent", "nesting::child"]).unwrap();
    b.enable(&["shared::root", "shared::leaf"]).unwrap();

    let _ = world.parent();
    let _ = world.shared_root();

    let sa = exp_a.get_finished_spans().unwrap();
    assert_eq!(sa.len(), 2, "A sees only its own pair");
    let ap = sa.iter().find(|s| s.name == "nesting::parent").unwrap();
    let ac = sa.iter().find(|s| s.name == "nesting::child").unwrap();
    assert_eq!(ac.parent_span_id, ap.span_context.span_id());
    assert_eq!(ac.span_context.trace_id(), ap.span_context.trace_id());

    let sb = exp_b.get_finished_spans().unwrap();
    assert_eq!(sb.len(), 2, "B sees only its own pair");
    let br = sb.iter().find(|s| s.name == "shared::root").unwrap();
    let bl = sb.iter().find(|s| s.name == "shared::leaf").unwrap();
    assert_eq!(bl.parent_span_id, br.span_context.span_id());
    assert_eq!(bl.span_context.trace_id(), br.span_context.trace_id());
}

#[test]
fn the_same_function_traced_by_two_instrumentations_yields_separate_traces() {
    let world = World::new();
    let (a, exp_a) = world.instr("A");
    let (b, exp_b) = world.instr("B");

    // The same function enabled in both -- each produces its own span in its
    // own tracer/backend, in its own trace.
    a.enable(&["nesting::parent"]).unwrap();
    b.enable(&["nesting::parent"]).unwrap();

    let _ = world.parent();

    let sa = exp_a.get_finished_spans().unwrap();
    let sb = exp_b.get_finished_spans().unwrap();
    assert_eq!(sa.len(), 1);
    assert_eq!(sb.len(), 1);
    assert_eq!(sa[0].name, "nesting::parent");
    assert_eq!(sb[0].name, "nesting::parent");
    assert_ne!(
        sa[0].span_context.trace_id(),
        sb[0].span_context.trace_id(),
        "each instrumentation builds a separate trace"
    );
}

#[test]
fn dropping_an_instrumentation_stops_new_spans_and_frees_its_slot() {
    let world = World::new();
    let (a, exp_a) = world.instr("A");
    a.enable(&["nesting::parent"]).unwrap();
    let _ = world.parent();
    assert_eq!(exp_a.get_finished_spans().unwrap().len(), 1);

    exp_a.reset();
    drop(a);
    let _ = world.parent();
    assert!(
        exp_a.get_finished_spans().unwrap().is_empty(),
        "no new spans for a dropped instrumentation's slot"
    );

    // A fresh instrumentation still allocates cleanly and works -- and since the
    // dropped one released its slot, this may well be the very same slot.
    let (c, exp_c) = world.instr("C");
    c.enable(&["nesting::parent"]).unwrap();
    let _ = world.parent();
    assert_eq!(exp_c.get_finished_spans().unwrap().len(), 1);
}

#[test]
fn slots_are_reused_so_churn_does_not_exhaust_them() {
    let world = World::new();
    // Build and drop well past MAX_INSTRUMENTATIONS one at a time. With a bump
    // allocator this would fail partway through; with slot reuse it can't.
    let total = MAX_INSTRUMENTATIONS * 3;
    for i in 0..total {
        let (one, exporter) = world.instr("churn");
        one.enable(&["nesting::child"]).unwrap();
        let _ = world.child();
        assert_eq!(
            exporter.get_finished_spans().unwrap().len(),
            1,
            "instrumentation #{i} of {total} should still trace"
        );
    }
}

#[test]
fn instrumentation_works_across_await_points() {
    let world = World::new();
    let (a, exp_a) = world.instr("A");
    a.enable(&["shared::async_root", "shared::async_leaf"])
        .unwrap();

    let _ = run(world.shared_async_root());

    let sa = exp_a.get_finished_spans().unwrap();
    assert_eq!(sa.len(), 2);
    let root = sa.iter().find(|s| s.name == "shared::async_root").unwrap();
    let leaf = sa.iter().find(|s| s.name == "shared::async_leaf").unwrap();
    assert_eq!(leaf.parent_span_id, root.span_context.span_id());
    assert_eq!(leaf.span_context.trace_id(), root.span_context.trace_id());
}

#[test]
fn many_instrumentations_trace_one_call() {
    let world = World::new();
    let (edge, edge_exporter) = world.distributed_instr("edge");
    edge.enable(&["nesting::*"]).unwrap();
    let many: Vec<_> = (0..10).map(|_| world.instr("many")).collect();
    for (instr, _) in &many {
        instr.enable(&["nesting::*"]).unwrap();
    }

    assert_eq!(world.parent(), 7);
    assert_eq!(world.parent(), 7);

    let mut traces = std::collections::HashSet::new();
    for exporter in many.iter().map(|(_, exporter)| exporter).chain([&edge_exporter]) {
        let spans = exporter.get_finished_spans().unwrap();
        assert_eq!(spans.len(), 4);
        for pair in spans.chunks(2) {
            assert_eq!(pair[0].name, "nesting::child");
            assert_eq!(pair[1].name, "nesting::parent");
            assert_eq!(pair[0].parent_span_id, pair[1].span_context.span_id());
            assert_eq!(pair[1].parent_span_id, SpanId::INVALID);
            assert_eq!(pair[0].span_context.trace_id(), pair[1].span_context.trace_id());
            assert!(traces.insert(pair[1].span_context.trace_id()));
        }
    }
    assert_eq!(traces.len(), 22);
}

#[test]
fn a_slot_whose_instrumentation_has_ended_is_passed_over() {
    let world = World::new();
    let (instr, exporter) = world.instr("A");
    instr.enable(&["nesting::child"]).unwrap();
    let mask = world.registry.borrow().sites[CHILD].enabled_mask;
    drop(instr);

    // The mask was read before the instrumentation ended.
    assert!(start_spans(&world.slots.borrow(), mask, "nesting::child", vec![]).is_none());
    assert!(exporter.get_finished_spans().unwrap().is_empty());
}

#[test]
fn the_envelope_has_one_entry_per_slot_however_deep_calls_are_nested() {
    let world = World::new();
    let (a, _exporter_a) = world.instr("A");
    let (b, _exporter_b) = world.instr("B");
    a.enable(&["nesting::parent"]).unwrap();
    b.enable(&["nesting::*"]).unwrap();

    let mut guards = vec![];
    let mut spans = vec![];
    for _ in 0..5 {
        let cx = world.context(PARENT, "nesting::parent", vec![]).unwrap();
        let envelope = cx.get::<InProcessParents>().unwrap();
        assert_eq!(envelope.position(0), Some(0));
        assert_eq!(envelope.position(1), Some(1));
        assert_eq!(envelope.position(2), None);
        let active = envelope.parent(0).unwrap().span().span_context().span_id();
        assert!(!spans.contains(&active));
        spans.push(active);
        guards.push(cx.attach());
    }

    // A does not trace the child, so its entry stays as it is.
    let cx = world.context(CHILD, "nesting::child", vec![]).unwrap();
    let envelope = cx.get::<InProcessParents>().unwrap();
    let active = envelope.parent(0).unwrap().span().span_context().span_id();
    assert_eq!(spans.last(), Some(&active));
    while let Some(guard) = guards.pop() {
        drop(guard);
    }
}
