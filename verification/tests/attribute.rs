//! What the `#[traceable]` attribute makes of a function.

use opentelemetry_traceable::traceable::{
    argument, plan, route, Argument, ArgumentError, RegistryKey, Route, RunUnder, TraceableArgs,
};

#[test]
fn the_attribute_knows_two_arguments() {
    assert_eq!(argument("name").unwrap(), Argument::Name);
    assert_eq!(argument("fields").unwrap(), Argument::Fields);
    let unknown = argument("tracer").unwrap_err();
    assert!(matches!(&unknown, ArgumentError::Unknown(ident) if ident == "tracer"));
    assert_eq!(unknown.message(), "unknown argument `tracer`");
}

#[test]
fn an_argument_is_given_once() {
    let args: TraceableArgs<&str, (&str, &str)> = TraceableArgs::default();
    let args = args.with_name("a").unwrap();
    let args = args.with_fields(vec![("k", "v")]).unwrap();
    assert_eq!(args.name, Some("a"));
    assert_eq!(args.fields, Some(vec![("k", "v")]));
    let twice = args.with_name("b").unwrap_err();
    assert!(matches!(twice, ArgumentError::DuplicateName));
    assert_eq!(twice.message(), "duplicate `name` argument");

    let args: TraceableArgs<&str, &str> = TraceableArgs::default();
    let twice = args.with_fields(vec![]).unwrap().with_fields(vec!["x"]).unwrap_err();
    assert!(matches!(twice, ArgumentError::DuplicateFields));
    assert_eq!(twice.message(), "duplicate `fields` argument");
}

#[test]
fn fields_become_attributes_in_their_order() {
    let args: TraceableArgs<&str, u8> = TraceableArgs::default();
    assert!(args.attributes().is_empty());
    let args: TraceableArgs<&str, u8> = TraceableArgs::default();
    assert_eq!(args.with_fields(vec![3, 1, 2]).unwrap().attributes(), vec![3, 1, 2]);
}

#[test]
fn a_given_name_is_the_span_name_and_the_key() {
    let plan = plan(Some("kafka.fetch"), "fetch", true);
    assert_eq!(plan.span_name, "kafka.fetch");
    assert!(matches!(&plan.registry_key, RegistryKey::Given(key) if key == "kafka.fetch"));
    assert_eq!(plan.registry_key.in_module("my_crate::kafka"), "kafka.fetch");
    assert_eq!(plan.run_under, RunUnder::Future);
}

#[test]
fn without_a_name_the_key_is_the_path() {
    let plan = plan(None, "process", false);
    assert_eq!(plan.span_name, "process");
    assert!(matches!(&plan.registry_key, RegistryKey::InModule(key) if key == "process"));
    assert_eq!(plan.registry_key.in_module("my_crate::work"), "my_crate::work::process");
    assert_eq!(plan.run_under, RunUnder::Guard);
}

#[test]
fn a_call_is_plain_if_nobody_traces_it() {
    assert_eq!(route(0), Route::Plain);
    assert_eq!(route(1), Route::Traced);
    assert_eq!(route(1 << 63), Route::Traced);
}
