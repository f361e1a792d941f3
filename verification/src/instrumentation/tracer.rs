//! Spans: what the library has from the OpenTelemetry API, and the one way in
//! which it starts a span.
use std::sync::Arc;

use opentelemetry::global::{BoxedSpan, BoxedTracer};
use opentelemetry::trace::{SpanBuilder, TraceContextExt, Tracer};
use opentelemetry::{Context, KeyValue};
use vstd::prelude::*;

use crate::instrumentation::context::{carried_parents, carried_state};

verus! {

/// The ambient state of a call: its current span and any number of typed values.
#[verifier::external_type_specification]
#[verifier::external_body]
pub struct ExContext(opentelemetry::Context);

/// A tracer of whatever kind.
#[verifier::external_type_specification]
#[verifier::external_body]
pub struct ExBoxedTracer(opentelemetry::global::BoxedTracer);

/// A span of whatever kind.
#[verifier::external_type_specification]
#[verifier::external_body]
pub struct ExBoxedSpan(opentelemetry::global::BoxedSpan);

/// What a span is built from.
#[verifier::external_type_specification]
#[verifier::external_body]
pub struct ExSpanBuilder(opentelemetry::trace::SpanBuilder);

/// An attribute of a span.
#[verifier::external_type_specification]
#[verifier::external_body]
pub struct ExKeyValue(opentelemetry::KeyValue);

/// The name that a span builder holds.
pub uninterp spec fn builder_name(builder: opentelemetry::trace::SpanBuilder) -> Seq<char>;

/// The attributes that a span builder holds.
pub uninterp spec fn builder_attributes(builder: opentelemetry::trace::SpanBuilder) -> Option<
    Seq<opentelemetry::KeyValue>,
>;

/// The trace id and the span id of the current span of a context, both zero
/// where it has none.
pub uninterp spec fn current_span(cx: opentelemetry::Context) -> (u128, u64);

/// Whether a context has a current span at all, which `TraceContextExt::has_active_span`
/// answers. The span need not be recording.
pub uninterp spec fn has_span(cx: opentelemetry::Context) -> bool;

/// The trace id and the span id of a span.
pub uninterp spec fn span_ids(span: opentelemetry::global::BoxedSpan) -> (u128, u64);

/// The copy that `Context::clone` makes is the context again: it shares the span
/// and the values.
pub assume_specification[ <opentelemetry::Context as Clone>::clone ](
    cx: &opentelemetry::Context,
) -> (copy: opentelemetry::Context)
    ensures
        copy == *cx,
;

/// `Context::current`: the context that is attached to this thread. Nothing is
/// said of it, for it depends on what the thread did before.
#[verifier::external_body]
pub(crate) fn current_context() -> (cx: Context) {
    Context::current()
}

/// `SpanBuilder::from_name`: a builder with that name and no attributes.
#[verifier::external_body]
pub(crate) fn named_builder(name: &'static str) -> (builder: SpanBuilder)
    ensures
        builder_name(builder) == name@,
        builder_attributes(builder) is None,
{
    SpanBuilder::from_name(name)
}

/// `SpanBuilder::with_attributes`: the builder with these attributes, in this
/// order, in place of any that it had. The name stays.
#[verifier::external_body]
pub(crate) fn with_attributes(builder: SpanBuilder, attrs: &Vec<KeyValue>) -> (with: SpanBuilder)
    ensures
        builder_name(with) == builder_name(builder),
        builder_attributes(with) == Some(attrs@),
{
    builder.with_attributes(attrs.iter().cloned())
}

/// `Tracer::build_with_context`, on a boxed tracer: a span built from `builder`
/// as a child of the current span of `parent`. What the span is like is the
/// business of the tracer.
#[verifier::external_body]
pub(crate) fn build_with_context(
    tracer: &Arc<BoxedTracer>,
    builder: SpanBuilder,
    parent: &Context,
) -> (span: BoxedSpan) {
    tracer.build_with_context(builder, parent)
}

/// `TraceContextExt::span` and `SpanRef::is_recording`: whether the current span
/// of a context records. A context without a span never does. A span stops recording
/// when it ends, so of any other context the answer holds for the moment only.
#[verifier::external_body]
pub(crate) fn is_recording(cx: &Context) -> (recording: bool)
    ensures
        recording ==> has_span(*cx),
{
    cx.span().is_recording()
}

/// `global::tracer`: a tracer with that name from the tracer provider that is
/// installed at the moment.
#[verifier::external_body]
pub(crate) fn global_tracer(name: &'static str) -> (tracer: Arc<BoxedTracer>) {
    Arc::new(opentelemetry::global::tracer(name))
}

/// `Context::default`: a context without a span and without values.
#[verifier::external_body]
pub(crate) fn root_context() -> (cx: Context)
    ensures
        !has_span(cx),
        current_span(cx) == (0u128, 0u64),
        carried_parents(cx) is None,
        carried_state(cx) is None,
{
    Context::default()
}

/// `TraceContextExt::with_span`: a copy of the context with `span` as its current
/// span, so that the ids of its current span are those of `span`. The values that the
/// context carries stay.
#[verifier::external_body]
pub(crate) fn with_span(parent: &Context, span: BoxedSpan) -> (child: Context)
    ensures
        has_span(child),
        current_span(child) == span_ids(span),
        carried_parents(child) == carried_parents(*parent),
        carried_state(child) == carried_state(*parent),
{
    parent.with_span(span)
}

/// Whether `cx` may be the current context of this thread.
pub closed spec fn is_current(cx: Context) -> bool {
    call_ensures(current_context, (), cx)
}

/// Whether `cx` may be a fresh context without a span.
pub closed spec fn is_root(cx: Context) -> bool {
    call_ensures(root_context, (), cx)
}

/// Whether a context may be reported as recording, or as not recording.
pub closed spec fn reported(cx: Context, recording: bool) -> bool {
    call_ensures(is_recording, (&cx,), recording)
}

/// Whether `tracer` may be the global tracer with that name.
pub closed spec fn is_global_tracer(name: &'static str, tracer: Arc<BoxedTracer>) -> bool {
    call_ensures(global_tracer, (name,), tracer)
}

/// Whether a tracer may answer the call for a span from `builder` under `parent`
/// with `span`.
pub closed spec fn built(
    tracer: Arc<BoxedTracer>,
    builder: SpanBuilder,
    parent: Context,
    span: BoxedSpan,
) -> bool {
    call_ensures(build_with_context, (&tracer, builder, &parent), span)
}

/// Whether `child` may be `parent` with `span` as its current span.
pub closed spec fn attached(parent: Context, span: BoxedSpan, child: Context) -> bool {
    call_ensures(with_span, (&parent, span), child)
}

/// A fresh context has no span and carries nothing.
pub proof fn lemma_root(cx: Context)
    requires
        is_root(cx),
    ensures
        !has_span(cx),
        current_span(cx) == (0u128, 0u64),
        carried_parents(cx) is None,
        carried_state(cx) is None,
{
}

/// A context with a new span has that span for its current one, and carries what the
/// context that it was made from does.
pub proof fn lemma_attached(parent: Context, span: BoxedSpan, child: Context)
    requires
        attached(parent, span, child),
    ensures
        has_span(child),
        current_span(child) == span_ids(span),
        carried_parents(child) == carried_parents(parent),
        carried_state(child) == carried_state(parent),
{
}

/// A context without a span is never reported as recording.
pub proof fn lemma_reported(cx: Context, recording: bool)
    requires
        reported(cx, recording),
    ensures
        recording ==> has_span(cx),
{
}

/// Whether a builder asks for a span with that name and those attributes.
pub open spec fn describes(
    builder: SpanBuilder,
    name: Seq<char>,
    attrs: Seq<KeyValue>,
) -> bool {
    &&& builder_name(builder) == name
    &&& builder_attributes(builder) == if attrs.len() == 0 {
        None
    } else {
        Some(attrs)
    }
}

/// Whether `child` is `parent` with a new span in it, which `tracer` made as a
/// child of the span of `parent`, with that name and those attributes.
pub open spec fn started(
    tracer: Arc<BoxedTracer>,
    name: Seq<char>,
    attrs: Seq<KeyValue>,
    parent: Context,
    child: Context,
) -> bool {
    exists|builder: SpanBuilder, span: BoxedSpan|
        describes(builder, name, attrs) && #[trigger] built(tracer, builder, parent, span)
            && #[trigger] attached(parent, span, child)
}

/// The context that is current on this thread.
pub(crate) fn current() -> (cx: Context)
    ensures
        is_current(cx),
{
    current_context()
}

/// A fresh context without a span.
pub(crate) fn root() -> (cx: Context)
    ensures
        is_root(cx),
{
    root_context()
}

/// Whether the current span of a context records at the moment.
pub(crate) fn recording(cx: &Context) -> (answer: bool)
    ensures
        reported(*cx, answer),
{
    is_recording(cx)
}

/// The global tracer with that name.
pub(crate) fn tracer_named(name: &'static str) -> (tracer: Arc<BoxedTracer>)
    ensures
        is_global_tracer(name, tracer),
{
    global_tracer(name)
}

/// What a span with that name and those attributes is built from.
pub fn span_builder(name: &'static str, attrs: &Vec<KeyValue>) -> (builder: SpanBuilder)
    ensures
        describes(builder, name@, attrs@),
        builder_name(builder) == name@,
        attrs@.len() > 0 ==> builder_attributes(builder) == Some(attrs@),
        attrs@.len() == 0 ==> builder_attributes(builder) is None,
{
    let builder = named_builder(name);
    if attrs.len() == 0 {
        builder
    } else {
        with_attributes(builder, attrs)
    }
}

/// Starts a span as a child of the span of `parent`, and puts it into a copy of
/// `parent`.
pub fn start_in(
    tracer: &Arc<BoxedTracer>,
    name: &'static str,
    attrs: &Vec<KeyValue>,
    parent: &Context,
) -> (child: Context)
    ensures
        started(*tracer, name@, attrs@, *parent, child),
        carried_parents(child) == carried_parents(*parent),
        carried_state(child) == carried_state(*parent),
{
    let builder = span_builder(name, attrs);
    let ghost plan = builder;
    let span = build_with_context(tracer, builder, parent);
    let ghost made = span;
    let child = with_span(parent, span);
    assert(built(*tracer, plan, *parent, made));
    assert(attached(*parent, made, child));
    child
}

/// A span is asked for under the name of the function and with every field that the
/// function gives, in their order: none is dropped, added or moved.
pub proof fn lemma_name_and_fields_reach_the_builder(
    builder: SpanBuilder,
    name: Seq<char>,
    attrs: Seq<KeyValue>,
)
    requires
        describes(builder, name, attrs),
    ensures
        builder_name(builder) == name,
        attrs.len() > 0 ==> builder_attributes(builder) == Some(attrs),
        builder_attributes(builder) matches Some(held) ==> held == attrs,
        attrs.len() == 0 ==> builder_attributes(builder) is None,
{
}

/// Two builders for the same name and the same fields hold the same, and builders for
/// different names or different fields do not.
pub proof fn lemma_builders_tell_names_and_fields_apart(
    a: SpanBuilder,
    b: SpanBuilder,
    name_a: Seq<char>,
    name_b: Seq<char>,
    attrs_a: Seq<KeyValue>,
    attrs_b: Seq<KeyValue>,
)
    requires
        describes(a, name_a, attrs_a),
        describes(b, name_b, attrs_b),
    ensures
        builder_name(a) == builder_name(b) <==> name_a == name_b,
        builder_attributes(a) == builder_attributes(b) <==> attrs_a == attrs_b,
{
    if attrs_a.len() == 0 && attrs_b.len() == 0 {
        assert(attrs_a =~= attrs_b);
    }
}

/// What it takes to have a new span in a context: the tracer was asked once more, with the
/// name and every field and under the span of `parent`, and what it answered is the current
/// span of `child`, which carries all that `parent` does.
pub proof fn lemma_a_started_span_is_the_current_one(
    tracer: Arc<BoxedTracer>,
    name: Seq<char>,
    attrs: Seq<KeyValue>,
    parent: Context,
    child: Context,
) -> (made: (SpanBuilder, BoxedSpan))
    requires
        started(tracer, name, attrs, parent, child),
    ensures
        builder_name(made.0) == name,
        attrs.len() > 0 ==> builder_attributes(made.0) == Some(attrs),
        attrs.len() == 0 ==> builder_attributes(made.0) is None,
        built(tracer, made.0, parent, made.1),
        attached(parent, made.1, child),
        has_span(child),
        current_span(child) == span_ids(made.1),
        carried_parents(child) == carried_parents(parent),
        carried_state(child) == carried_state(parent),
{
    let (builder, span) = choose|builder: SpanBuilder, span: BoxedSpan|
        describes(builder, name, attrs) && #[trigger] built(tracer, builder, parent, span)
            && #[trigger] attached(parent, span, child);
    lemma_attached(parent, span, child);
    (builder, span)
}

/// Of whoever answers what: the predicates speak of one call each, with these arguments.
proof fn lemma_answers_are_of_the_calls_made(
    tracer: Arc<BoxedTracer>,
    builder: SpanBuilder,
    cx: Context,
    span: BoxedSpan,
    other: Context,
    name: &'static str,
    answer: bool,
)
    ensures
        built(tracer, builder, cx, span) ==> call_ensures(
            build_with_context,
            (&tracer, builder, &cx),
            span,
        ),
        attached(cx, span, other) ==> call_ensures(with_span, (&cx, span), other),
        is_current(cx) ==> call_ensures(current_context, (), cx),
        is_root(cx) ==> call_ensures(root_context, (), cx),
        is_global_tracer(name, tracer) ==> call_ensures(global_tracer, (name,), tracer),
        reported(cx, answer) ==> call_ensures(is_recording, (&cx,), answer),
{
}

} // verus!
