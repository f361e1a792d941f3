//! Calls of traced functions under a default instrumentation and named ones beside it,
//! from the masks of their sites to the spans that reach an exporter.

use std::cell::RefCell;
use std::future::Future;
use std::sync::Arc;

use opentelemetry::global::{self, BoxedTracer};
use opentelemetry::trace::{FutureExt, TraceContextExt, TracerProvider as _};
use opentelemetry::{Context, KeyValue};
use opentelemetry_sdk::trace::{InMemorySpanExporter, SdkTracer, SdkTracerProvider};
use opentelemetry_traceable::registry::{Registry, TraceSite};
use opentelemetry_traceable::stylus::catalog::catalog;
use opentelemetry_traceable::stylus::codec::DecodeError;
use opentelemetry_traceable::stylus::config;
use opentelemetry_traceable::stylus::instrumentation::{start_spans, Instrumentation, SlotTable};
use opentelemetry_traceable::traceable::{route, Route};

/// The sites of the functions below, each by its registry key.
const PLAIN: usize = 0;
const NAMED: usize = 1;
const WITH_FIELDS: usize = 2;
const PLAIN_ASYNC: usize = 3;
const PARENT: usize = 4;
const CHILD: usize = 5;
const SHARED_ROOT: usize = 6;
const SHARED_LEAF: usize = 7;
const SHARED_ASYNC_ROOT: usize = 8;
const SHARED_ASYNC_LEAF: usize = 9;
const RENDER: usize = 10;

struct World {
    registry: RefCell<Registry>,
    table: RefCell<SlotTable<Arc<BoxedTracer>>>,
}

/// A named instrumentation of a world. It ends when it is dropped.
struct Handle<'w> {
    world: &'w World,
    live: Option<Instrumentation>,
}

impl Handle<'_> {
    fn enable(&self, names: &[&str]) {
        let live = self.live.as_ref().unwrap();
        live.enable(&mut self.world.registry.borrow_mut(), names);
    }

    fn set_child_only(&self, names: &[&str]) {
        let live = self.live.as_ref().unwrap();
        live.set_child_only(&mut self.world.registry.borrow_mut(), names);
    }
}

impl Drop for Handle<'_> {
    fn drop(&mut self) {
        if let Some(live) = self.live.take() {
            live.release(
                &mut self.world.registry.borrow_mut(),
                &mut self.world.table.borrow_mut(),
            );
        }
    }
}

/// A world, and an exporter that sees the spans of its default instrumentation.
fn setup() -> (World, InMemorySpanExporter) {
    let exporter = InMemorySpanExporter::default();
    let provider = SdkTracerProvider::builder()
        .with_simple_exporter(exporter.clone())
        .build();
    global::set_tracer_provider(provider);
    let world = World::new();
    config::disable_all(&mut world.registry.borrow_mut());
    world.set_child_only(&[]);
    (world, exporter)
}

/// Runs a future to its end.
fn run<T>(future: impl Future<Output = T>) -> T {
    tokio::runtime::Builder::new_current_thread().build().unwrap().block_on(future)
}

fn boxed(tracer: SdkTracer) -> Arc<BoxedTracer> {
    Arc::new(BoxedTracer::new(Box::new(tracer)))
}

impl World {
    fn new() -> World {
        World {
            registry: RefCell::new(Registry::new(vec![
                TraceSite::new("stylus::plain"),
                TraceSite::new("custom.span"),
                TraceSite::new("stylus::with_fields"),
                TraceSite::new("stylus::plain_async"),
                TraceSite::new("nesting::parent"),
                TraceSite::new("nesting::child"),
                TraceSite::new("shared::root"),
                TraceSite::new("shared::leaf"),
                TraceSite::new("shared::async_root"),
                TraceSite::new("shared::async_leaf"),
                TraceSite::new("widget::render"),
            ])),
            table: RefCell::new(SlotTable::default()),
        }
    }

    fn enable(&self, names: &[&str]) {
        config::enable(&mut self.registry.borrow_mut(), names);
    }

    fn set_enabled(&self, names: &[&str]) {
        config::set_enabled(&mut self.registry.borrow_mut(), names);
    }

    fn set_child_only(&self, names: &[&str]) {
        config::set_child_only(&mut self.registry.borrow_mut(), names);
    }

    fn set_enabled_encoded(&self, text: &str) -> Result<(), DecodeError> {
        config::set_enabled_encoded(&mut self.registry.borrow_mut(), text)
    }

    fn enable_encoded(&self, text: &str) -> Result<(), DecodeError> {
        config::enable_encoded(&mut self.registry.borrow_mut(), text)
    }

    fn disable_encoded(&self, text: &str) -> Result<(), DecodeError> {
        config::disable_encoded(&mut self.registry.borrow_mut(), text)
    }

    fn all_names(&self) -> Vec<&'static str> {
        config::all_names(&self.registry.borrow())
    }

    fn enabled_names(&self) -> Vec<&'static str> {
        config::enabled_names(&self.registry.borrow())
    }

    fn child_only_names(&self) -> Vec<&'static str> {
        config::child_only_names(&self.registry.borrow())
    }

    /// The encoded ids of some names, which the catalog gives.
    fn encode_names(&self, names: &[&str]) -> String {
        let catalog = catalog(&self.registry.borrow());
        let mut ids: Vec<u64> = names
            .iter()
            .map(|name| {
                catalog
                    .functions
                    .iter()
                    .find(|f| f.name == *name)
                    .unwrap_or_else(|| panic!("no traceable function named `{name}`"))
                    .id
            })
            .collect();
        config::encode(&mut ids)
    }

    /// A named instrumentation with an exporter of its own.
    fn named_instr(&self, name: &'static str) -> (Handle<'_>, InMemorySpanExporter) {
        let exporter = InMemorySpanExporter::default();
        let provider = SdkTracerProvider::builder()
            .with_simple_exporter(exporter.clone())
            .build();
        let live = Instrumentation::builder()
            .name(name.to_string())
            .tracer(boxed(provider.tracer(name)))
            .build(&mut self.table.borrow_mut())
            .expect("a free instrumentation slot");
        (Handle { world: self, live: Some(live) }, exporter)
    }

    /// The context of a call of the function at a site, if anybody traces it.
    fn context(
        &self,
        site: usize,
        name: &'static str,
        tracer: &'static str,
        attrs: Vec<KeyValue>,
    ) -> Option<Context> {
        let (enabled, child_only) = {
            let registry = self.registry.borrow();
            (registry.sites[site].enabled_mask, registry.sites[site].child_only_mask)
        };
        match route(enabled) {
            Route::Plain => None,
            Route::Traced => {
                start_spans(&self.table.borrow(), enabled, child_only, name, tracer, attrs)
            }
        }
    }

    fn traced<T>(
        &self,
        site: usize,
        name: &'static str,
        attrs: Vec<KeyValue>,
        body: impl FnOnce() -> T,
    ) -> T {
        self.traced_by(site, name, "stylus", attrs, body)
    }

    fn traced_by<T>(
        &self,
        site: usize,
        name: &'static str,
        tracer: &'static str,
        attrs: Vec<KeyValue>,
        body: impl FnOnce() -> T,
    ) -> T {
        match self.context(site, name, tracer, attrs) {
            None => body(),
            Some(cx) => {
                let _guard = cx.attach();
                body()
            }
        }
    }

    async fn traced_async<T>(
        &self,
        site: usize,
        name: &'static str,
        body: impl Future<Output = T>,
    ) -> T {
        match self.context(site, name, "stylus", vec![]) {
            None => body.await,
            Some(cx) => body.with_context(cx).await,
        }
    }

    fn plain(&self, x: u64) -> u64 {
        self.traced(PLAIN, "plain", vec![], || x + 1)
    }

    fn named(&self) -> u64 {
        self.traced_by(NAMED, "custom.span", "test-tracer", vec![], || 42)
    }

    fn with_fields(&self, id: String) -> String {
        let attrs = vec![
            KeyValue::new("component", "proxy"),
            KeyValue::new("request_id", id.clone()),
        ];
        self.traced(WITH_FIELDS, "with_fields", attrs, || id)
    }

    async fn plain_async(&self, x: u64) -> u64 {
        self.traced_async(PLAIN_ASYNC, "plain_async", async { x + 1 }).await
    }

    fn parent(&self) -> u64 {
        self.traced(PARENT, "nesting::parent", vec![], || self.child())
    }

    fn child(&self) -> u64 {
        self.traced(CHILD, "nesting::child", vec![], || 7)
    }

    fn shared_root(&self) -> u64 {
        self.traced(SHARED_ROOT, "shared::root", vec![], || self.shared_leaf())
    }

    fn shared_leaf(&self) -> u64 {
        self.traced(SHARED_LEAF, "shared::leaf", vec![], || 5)
    }

    async fn shared_async_root(&self) -> u64 {
        self.traced_async(SHARED_ASYNC_ROOT, "shared::async_root", self.shared_async_leaf()).await
    }

    async fn shared_async_leaf(&self) -> u64 {
        self.traced_async(SHARED_ASYNC_LEAF, "shared::async_leaf", async { 5 }).await
    }

    fn render(&self) -> u64 {
        self.traced(RENDER, "widget::render", vec![], || 99)
    }
}

#[test]
fn traceable_disabled_by_default_emits_no_span() {
    let (world, exporter) = setup();

    let result = world.plain(1);

    assert_eq!(result, 2);
    assert!(exporter.get_finished_spans().unwrap().is_empty());
}

#[test]
fn traceable_enabling_emits_a_span_with_default_name() {
    let (world, exporter) = setup();
    world.enable(&["stylus::plain"]);

    let result = world.plain(1);

    assert_eq!(result, 2);
    let spans = exporter.get_finished_spans().unwrap();
    assert_eq!(spans.len(), 1);
    assert_eq!(spans[0].name, "plain");
}

#[test]
fn custom_name_and_tracer() {
    let (world, exporter) = setup();
    world.enable(&["custom.span"]);

    let result = world.named();

    assert_eq!(result, 42);
    let spans = exporter.get_finished_spans().unwrap();
    assert_eq!(spans.len(), 1);
    assert_eq!(spans[0].name, "custom.span");
    assert_eq!(spans[0].instrumentation_scope.name(), "test-tracer");
}

#[test]
fn traceable_fields_become_span_attributes() {
    let (world, exporter) = setup();
    world.enable(&["stylus::with_fields"]);

    let result = world.with_fields("abc".to_string());

    assert_eq!(result, "abc");
    let spans = exporter.get_finished_spans().unwrap();
    assert_eq!(spans.len(), 1);
    let attrs = &spans[0].attributes;
    assert!(
        attrs
            .iter()
            .any(|kv| kv.key.as_str() == "component" && kv.value.as_str() == "proxy")
    );
    assert!(
        attrs
            .iter()
            .any(|kv| kv.key.as_str() == "request_id" && kv.value.as_str() == "abc")
    );
}

#[test]
fn traceable_async_function_is_instrumented_when_enabled() {
    let (world, exporter) = setup();
    world.enable(&["stylus::plain_async"]);

    let result = run(world.plain_async(1));

    assert_eq!(result, 2);
    let spans = exporter.get_finished_spans().unwrap();
    assert_eq!(spans.len(), 1);
    assert_eq!(spans[0].name, "plain_async");
}

#[test]
fn traceable_nested_spans_share_a_trace_and_correct_parent() {
    let (world, exporter) = setup();
    world.enable(&["nesting::parent", "nesting::child"]);

    let result = world.parent();

    assert_eq!(result, 7);
    let spans = exporter.get_finished_spans().unwrap();
    assert_eq!(spans.len(), 2);
    let child_span = spans.iter().find(|s| s.name == "nesting::child").unwrap();
    let parent_span = spans.iter().find(|s| s.name == "nesting::parent").unwrap();
    assert_eq!(
        child_span.parent_span_id,
        parent_span.span_context.span_id()
    );
    assert_eq!(
        child_span.span_context.trace_id(),
        parent_span.span_context.trace_id()
    );
}

#[test]
fn traceable_disabling_parent_does_not_suppress_enabled_child() {
    let (world, exporter) = setup();
    // Only the child is enabled -- the parent function still runs (and still
    // calls the child) but must not itself be wrapped in a span, and must not
    // prevent the child's span from being recorded.
    world.enable(&["nesting::child"]);

    let result = world.parent();

    assert_eq!(result, 7);
    let spans = exporter.get_finished_spans().unwrap();
    assert_eq!(spans.len(), 1);
    assert_eq!(spans[0].name, "nesting::child");
}

#[test]
fn traceable_method_inside_impl_block_is_instrumented() {
    let (world, exporter) = setup();
    world.enable(&["widget::render"]);

    let result = world.render();

    assert_eq!(result, 99);
    let spans = exporter.get_finished_spans().unwrap();
    assert_eq!(spans.len(), 1);
    assert_eq!(spans[0].name, "widget::render");
}

#[test]
fn traceable_set_enabled_replaces_the_active_subset() {
    let (world, exporter) = setup();
    world.enable(&["stylus::plain", "custom.span"]);
    world.set_enabled(&["custom.span"]);

    world.plain(1);
    world.named();

    let spans = exporter.get_finished_spans().unwrap();
    assert_eq!(spans.len(), 1);
    assert_eq!(spans[0].name, "custom.span");
}

#[test]
fn traceable_registry_discovers_all_traceable_functions_in_this_binary() {
    let (world, _exporter) = setup();

    let names: std::collections::HashSet<_> = world.all_names().into_iter().collect();
    assert!(names.contains("custom.span"));
    assert!(names.contains("nesting::parent"));
    assert!(names.contains("nesting::child"));
    assert!(names.contains("widget::render"));
}

#[test]
fn traceable_enabled_names_reflects_the_active_subset() {
    let (world, _exporter) = setup();
    world.enable(&["nesting::parent", "nesting::child"]);

    let enabled: std::collections::HashSet<_> = world.enabled_names().into_iter().collect();
    assert_eq!(enabled, ["nesting::parent", "nesting::child"].into());
}

#[test]
fn set_enabled_encoded_toggles_spans_via_an_encoded_id_list() {
    let (world, exporter) = setup();
    let encoded = world.encode_names(&["nesting::child"]);

    world.set_enabled_encoded(&encoded).unwrap();
    let result = world.parent();

    assert_eq!(result, 7);
    let spans = exporter.get_finished_spans().unwrap();
    assert_eq!(spans.len(), 1);
    assert_eq!(spans[0].name, "nesting::child");
}

#[test]
fn enable_and_disable_encoded_are_additive_and_subtractive() {
    let (world, exporter) = setup();
    let both = world.encode_names(&["nesting::parent", "nesting::child"]);
    let just_parent = world.encode_names(&["nesting::parent"]);

    world.enable_encoded(&both).unwrap();
    world.disable_encoded(&just_parent).unwrap();
    let result = world.parent();

    assert_eq!(result, 7);
    let spans = exporter.get_finished_spans().unwrap();
    assert_eq!(spans.len(), 1);
    assert_eq!(spans[0].name, "nesting::child");
}

#[test]
fn set_enabled_encoded_rejects_a_corrupt_encoded_id_list() {
    let (world, _exporter) = setup();
    assert!(world.set_enabled_encoded("not a valid list!!").is_err());
}

#[test]
fn catalog_reports_every_traceable_function_with_a_matching_id() {
    let (world, _exporter) = setup();
    // Touch every traceable fn once so its local static is linked in.
    let _ = world.plain(0);
    world.named();
    let _ = world.with_fields(String::new());
    world.parent();
    world.render();

    let catalog = catalog(&world.registry.borrow());

    // Ids are dense registry indices: `0..n`, each reported exactly once.
    let mut ids: Vec<u64> = catalog.functions.iter().map(|f| f.id).collect();
    ids.sort_unstable();
    let n = ids.len() as u64;
    assert_eq!(ids, (0..n).collect::<Vec<_>>(), "ids must be a dense 0..n");

    // The catalog's name->id mapping is what an encoded subset is built from,
    // so encoding a name via the catalog and applying it must enable exactly
    // that function.
    let by_name: std::collections::HashMap<_, _> =
        catalog.functions.iter().map(|f| (f.name, f.id)).collect();
    for name in [
        "custom.span",
        "nesting::parent",
        "nesting::child",
        "widget::render",
    ] {
        assert!(by_name.contains_key(name), "{name} missing from catalog");
        let decoded = config::decode(&world.encode_names(&[name])).unwrap();
        assert_eq!(decoded, vec![by_name[name]]);
    }
}

#[test]
fn child_only_creates_no_span_without_an_active_parent() {
    let (world, exporter) = setup();
    // Enabled AND put in child-only mode, but called directly with no ambient
    // span -- must stay silent, not become an orphan root.
    world.enable(&["shared::leaf"]);
    world.set_child_only(&["shared::leaf"]);

    let result = world.shared_leaf();

    assert_eq!(result, 5);
    assert!(exporter.get_finished_spans().unwrap().is_empty());
}

#[test]
fn child_only_nests_correctly_under_an_active_parent() {
    let (world, exporter) = setup();
    world.enable(&["shared::root", "shared::leaf"]);
    world.set_child_only(&["shared::leaf"]);

    let result = world.shared_root();

    assert_eq!(result, 5);
    let spans = exporter.get_finished_spans().unwrap();
    assert_eq!(spans.len(), 2);
    let leaf_span = spans.iter().find(|s| s.name == "shared::leaf").unwrap();
    let root_span = spans.iter().find(|s| s.name == "shared::root").unwrap();
    assert_eq!(leaf_span.parent_span_id, root_span.span_context.span_id());
}

#[test]
fn child_only_mode_still_respects_the_enabled_flag() {
    let (world, exporter) = setup();
    // Root enabled, leaf's own flag left off -- child-only only relaxes the
    // "needs a parent" requirement, it doesn't bypass the function's own
    // enabled flag.
    world.enable(&["shared::root"]);
    world.set_child_only(&["shared::leaf"]);

    let result = world.shared_root();

    assert_eq!(result, 5);
    let spans = exporter.get_finished_spans().unwrap();
    assert_eq!(spans.len(), 1);
    assert_eq!(spans[0].name, "shared::root");
}

#[test]
fn child_only_is_a_runtime_mode_the_same_fn_can_root_or_not() {
    // The same enabled function roots a trace when *not* in child-only mode,
    // and stays silent (no orphan) when it *is* -- the whole point of making
    // child-only a runtime decision rather than a source annotation.
    let (world, exporter) = setup();

    // Not child-only: called directly, it roots its own span.
    world.enable(&["shared::leaf"]);
    assert_eq!(world.shared_leaf(), 5);
    let spans = exporter.get_finished_spans().unwrap();
    assert_eq!(spans.len(), 1);
    assert_eq!(spans[0].name, "shared::leaf");

    // Flip the same function into child-only mode: now it suppresses itself.
    exporter.reset();
    world.set_child_only(&["shared::leaf"]);
    assert_eq!(world.shared_leaf(), 5);
    assert!(exporter.get_finished_spans().unwrap().is_empty());
}

#[test]
fn child_only_works_for_async_functions_too() {
    let (world, exporter) = setup();

    world.enable(&["shared::async_leaf"]);
    world.set_child_only(&["shared::async_leaf"]);
    let result = run(world.shared_async_leaf());
    assert_eq!(result, 5);
    assert!(
        exporter.get_finished_spans().unwrap().is_empty(),
        "async child-only fn must not orphan without an active parent"
    );

    world.enable(&["shared::async_root", "shared::async_leaf"]);
    let result = run(world.shared_async_root());
    assert_eq!(result, 5);
    let spans = exporter.get_finished_spans().unwrap();
    assert_eq!(spans.len(), 2);
    let leaf_span = spans
        .iter()
        .find(|s| s.name == "shared::async_leaf")
        .unwrap();
    let root_span = spans
        .iter()
        .find(|s| s.name == "shared::async_root")
        .unwrap();
    assert_eq!(leaf_span.parent_span_id, root_span.span_context.span_id());
}

#[test]
fn child_only_names_reflects_the_configured_set() {
    let (world, _exporter) = setup();

    world.set_child_only(&["shared::leaf", "shared::async_leaf"]);
    let names: std::collections::HashSet<_> = world.child_only_names().into_iter().collect();

    assert!(names.contains("shared::leaf"));
    assert!(names.contains("shared::async_leaf"));
    assert!(!names.contains("shared::root"));
}

#[test]
fn traceable_two_instrumentations_isolate_their_spans_and_traces() {
    let (world, _exporter) = setup();
    let (a, exp_a) = world.named_instr("A");
    let (b, exp_b) = world.named_instr("B");

    // Overlapping enabled sets: both trace the parent, only A traces the child.
    a.enable(&["nesting::parent", "nesting::child"]);
    b.enable(&["nesting::parent"]);

    let _ = world.parent();

    let spans_a = exp_a.get_finished_spans().unwrap();
    let spans_b = exp_b.get_finished_spans().unwrap();

    let names_a: std::collections::HashSet<_> = spans_a.iter().map(|s| s.name.as_ref()).collect();
    let names_b: std::collections::HashSet<_> = spans_b.iter().map(|s| s.name.as_ref()).collect();
    assert_eq!(names_a, ["nesting::parent", "nesting::child"].into());
    assert_eq!(names_b, ["nesting::parent"].into());

    // No trace ID ever crosses between the two exporters.
    let traces_a: std::collections::HashSet<_> =
        spans_a.iter().map(|s| s.span_context.trace_id()).collect();
    let traces_b: std::collections::HashSet<_> =
        spans_b.iter().map(|s| s.span_context.trace_id()).collect();
    assert!(traces_a.is_disjoint(&traces_b));
}

#[test]
fn traceable_each_instrumentation_nests_independently() {
    let (world, _exporter) = setup();
    let (a, exp_a) = world.named_instr("A");
    let (b, exp_b) = world.named_instr("B");

    // A traces one parent/child pair, B a different one.
    a.enable(&["nesting::parent", "nesting::child"]);
    b.enable(&["shared::root", "shared::leaf"]);

    let _ = world.parent();
    let _ = world.shared_root();

    let sa = exp_a.get_finished_spans().unwrap();
    assert_eq!(sa.len(), 2, "A sees only its own pair");
    let ap = sa.iter().find(|s| s.name == "nesting::parent").unwrap();
    let ac = sa.iter().find(|s| s.name == "nesting::child").unwrap();
    assert_eq!(ac.parent_span_id, ap.span_context.span_id());
    assert_eq!(ac.span_context.trace_id(), ap.span_context.trace_id());

    let sb = exp_b.get_finished_spans().unwrap();
    assert_eq!(sb.len(), 2, "B sees only its own pair");
    let br = sb.iter().find(|s| s.name == "shared::root").unwrap();
    let bl = sb.iter().find(|s| s.name == "shared::leaf").unwrap();
    assert_eq!(bl.parent_span_id, br.span_context.span_id());
    assert_eq!(bl.span_context.trace_id(), br.span_context.trace_id());
}

#[test]
fn default_and_named_coexist_with_independent_traces() {
    let (world, exp_default) = setup();
    let (named, exp_named) = world.named_instr("N");

    // The same function enabled in both the default instrumentation and a named
    // one -- each produces its own span in its own tracer/backend.
    world.enable(&["nesting::parent"]);
    named.enable(&["nesting::parent"]);

    let _ = world.parent();

    let sd = exp_default.get_finished_spans().unwrap();
    let sn = exp_named.get_finished_spans().unwrap();
    assert_eq!(sd.len(), 1);
    assert_eq!(sn.len(), 1);
    assert_eq!(sd[0].name, "nesting::parent");
    assert_eq!(sn[0].name, "nesting::parent");
    assert_ne!(
        sd[0].span_context.trace_id(),
        sn[0].span_context.trace_id(),
        "default and named instrumentations build separate traces"
    );
}

#[test]
fn child_only_is_per_instrumentation() {
    let (world, _exporter) = setup();
    let (a, exp_a) = world.named_instr("A");
    let (b, exp_b) = world.named_instr("B");

    // Both enable the shared leaf; A puts it in child-only mode, B leaves it
    // root-capable. Called directly (no parent), A must suppress it, B must not.
    a.enable(&["shared::leaf"]);
    a.set_child_only(&["shared::leaf"]);
    b.enable(&["shared::leaf"]);

    let _ = world.shared_leaf();

    assert!(
        exp_a.get_finished_spans().unwrap().is_empty(),
        "A: child-only with no parent stays silent"
    );
    let sb = exp_b.get_finished_spans().unwrap();
    assert_eq!(sb.len(), 1, "B: root-capable, so it roots its own span");
    assert_eq!(sb[0].name, "shared::leaf");
}

#[test]
fn a_context_without_a_span_stays_without_one_for_a_child_only_default() {
    let (world, default_spans) = setup();
    let (named, named_spans) = world.named_instr("other");
    world.enable(&["shared::leaf"]);
    world.set_child_only(&["shared::leaf"]);
    assert!(world.context(SHARED_LEAF, "shared::leaf", "stylus", vec![]).is_none());

    named.enable(&["shared::leaf"]);
    let tip = world.context(SHARED_LEAF, "shared::leaf", "stylus", vec![]).unwrap();

    assert!(!tip.has_active_span());
    assert!(!tip.span().is_recording());
    drop(tip);
    assert!(default_spans.get_finished_spans().unwrap().is_empty());
    assert_eq!(named_spans.get_finished_spans().unwrap().len(), 1);
}

#[test]
fn dropping_an_instrumentation_stops_new_spans_and_frees_reuse() {
    let (world, _exporter) = setup();
    let (a, exp_a) = world.named_instr("A");
    a.enable(&["nesting::parent"]);
    let _ = world.parent();
    assert_eq!(exp_a.get_finished_spans().unwrap().len(), 1);

    exp_a.reset();
    drop(a);
    let _ = world.parent();
    assert!(
        exp_a.get_finished_spans().unwrap().is_empty(),
        "no new spans for a dropped instrumentation's slot"
    );

    // A fresh instrumentation still allocates cleanly and works.
    let (c, exp_c) = world.named_instr("C");
    c.enable(&["nesting::parent"]);
    let _ = world.parent();
    assert_eq!(exp_c.get_finished_spans().unwrap().len(), 1);
}

#[test]
fn named_instrumentation_works_across_await_points() {
    let (world, _exporter) = setup();
    let (a, exp_a) = world.named_instr("A");
    a.enable(&["shared::async_root", "shared::async_leaf"]);

    let _ = run(world.shared_async_root());

    let sa = exp_a.get_finished_spans().unwrap();
    assert_eq!(sa.len(), 2);
    let root = sa.iter().find(|s| s.name == "shared::async_root").unwrap();
    let leaf = sa.iter().find(|s| s.name == "shared::async_leaf").unwrap();
    assert_eq!(leaf.parent_span_id, root.span_context.span_id());
    assert_eq!(leaf.span_context.trace_id(), root.span_context.trace_id());
}
