//! What the `#[traceable]` attribute makes of a function: its arguments, the names it
//! goes by, and the way a call takes.
use vstd::prelude::*;
use vstd::string::StringExecFns;

use crate::mask::{lemma_empty_mask, slot_set};
use crate::text::same_text;

verus! {

/// The arguments that the attribute knows.
#[derive(Debug, Clone, Copy, PartialEq, Eq, Structural)]
pub enum Argument {
    /// `name = "..."`: the name of the span and the registry key.
    Name,
    /// `fields(key = value, ...)`: attributes of the span.
    Fields,
}

/// Why an argument is refused.
#[derive(Debug, Clone)]
pub enum ArgumentError {
    /// There is a name already.
    DuplicateName,
    /// There are fields already.
    DuplicateFields,
    /// The attribute knows no such argument.
    Unknown(String),
}

impl ArgumentError {
    /// The error in words.
    pub fn message(&self) -> (message: String)
        ensures
            message@ == match *self {
                ArgumentError::DuplicateName => "duplicate `name` argument"@,
                ArgumentError::DuplicateFields => "duplicate `fields` argument"@,
                ArgumentError::Unknown(ident) => "unknown argument `"@ + ident@ + "`"@,
            },
    {
        match self {
            ArgumentError::DuplicateName => "duplicate `name` argument".to_owned(),
            ArgumentError::DuplicateFields => "duplicate `fields` argument".to_owned(),
            ArgumentError::Unknown(ident) => {
                let head = String::from_str("unknown argument `");
                head.concat(ident.as_str()).concat("`")
            },
        }
    }
}

/// The argument that an identifier announces.
///
/// # Errors
///
/// [`ArgumentError::Unknown`] if it announces none.
pub fn argument(ident: &str) -> (argument: Result<Argument, ArgumentError>)
    ensures
        match argument {
            Ok(Argument::Name) => ident@ == "name"@,
            Ok(Argument::Fields) => ident@ == "fields"@ && ident@ != "name"@,
            Err(ArgumentError::Unknown(unknown)) => unknown@ == ident@ && ident@ != "name"@ && ident@
                != "fields"@,
            Err(_) => false,
        },
{
    if same_text(ident, "name") {
        Ok(Argument::Name)
    } else if same_text(ident, "fields") {
        Ok(Argument::Fields)
    } else {
        Err(ArgumentError::Unknown(ident.to_owned()))
    }
}

/// The arguments of one attribute: a name of some kind and fields of some kind.
#[derive(Debug)]
pub struct TraceableArgs<L, F> {
    /// The name, if one is given.
    pub name: Option<L>,
    /// The fields, if they are given.
    pub fields: Option<Vec<F>>,
}

impl<L, F> Default for TraceableArgs<L, F> {
    /// No argument.
    fn default() -> (args: Self)
        ensures
            args.name is None,
            args.fields is None,
    {
        TraceableArgs { name: None, fields: None }
    }
}

impl<L, F> TraceableArgs<L, F> {
    /// The arguments with a name.
    ///
    /// # Errors
    ///
    /// [`ArgumentError::DuplicateName`] if there is one already.
    pub fn with_name(self, name: L) -> (args: Result<Self, ArgumentError>)
        ensures
            match args {
                Ok(args) => self.name is None && args == (TraceableArgs {
                    name: Some(name),
                    ..self
                }),
                Err(error) => self.name is Some && error is DuplicateName,
            },
    {
        if self.name.is_some() {
            Err(ArgumentError::DuplicateName)
        } else {
            Ok(TraceableArgs { name: Some(name), fields: self.fields })
        }
    }

    /// The arguments with fields.
    ///
    /// # Errors
    ///
    /// [`ArgumentError::DuplicateFields`] if there are some already.
    pub fn with_fields(self, fields: Vec<F>) -> (args: Result<Self, ArgumentError>)
        ensures
            match args {
                Ok(args) => self.fields is None && args == (TraceableArgs {
                    fields: Some(fields),
                    ..self
                }),
                Err(error) => self.fields is Some && error is DuplicateFields,
            },
    {
        if self.fields.is_some() {
            Err(ArgumentError::DuplicateFields)
        } else {
            Ok(TraceableArgs { name: self.name, fields: Some(fields) })
        }
    }

    /// The attributes of the span: the fields in their order, or none.
    pub fn attributes(self) -> (attributes: Vec<F>)
        ensures
            attributes@ == match self.fields {
                Some(fields) => fields@,
                None => Seq::empty(),
            },
    {
        match self.fields {
            Some(fields) => fields,
            None => Vec::new(),
        }
    }
}

/// The registry key of a function.
#[derive(Debug, Clone)]
pub enum RegistryKey {
    /// The key that the attribute gives.
    Given(String),
    /// The function with this name, in whatever module it stands.
    InModule(String),
}

impl RegistryKey {
    /// The key for a function in the given module.
    pub open spec fn text(self, module: Seq<char>) -> Seq<char> {
        match self {
            RegistryKey::Given(key) => key@,
            RegistryKey::InModule(function) => module + "::"@ + function@,
        }
    }

    /// The key for a function in the given module.
    pub fn in_module(&self, module: &str) -> (key: String)
        ensures
            key@ == self.text(module@),
    {
        match self {
            RegistryKey::Given(key) => key.as_str().to_owned(),
            RegistryKey::InModule(function) => {
                String::from_str(module).concat("::").concat(function.as_str())
            },
        }
    }
}

/// How the body of a traced call runs in its context.
#[derive(Debug, Clone, Copy, PartialEq, Eq, Structural)]
pub enum RunUnder {
    /// The context is attached to the thread for as long as the body runs.
    Guard,
    /// The context goes with the future that the body is.
    Future,
}

/// What a function with the attribute becomes.
#[derive(Debug, Clone)]
pub struct Plan {
    /// The name of its spans.
    pub span_name: String,
    /// Its registry key.
    pub registry_key: RegistryKey,
    /// How its body runs when it is traced.
    pub run_under: RunUnder,
}

/// What a function with the attribute becomes. The name that the attribute gives is
/// the name of the spans and the registry key; without one the spans have the name of
/// the function, and the key is its path.
pub fn plan(given: Option<&str>, function: &str, is_async: bool) -> (plan: Plan)
    ensures
        match given {
            Some(name) => plan.span_name@ == name@ && (plan.registry_key matches
                RegistryKey::Given(key) && key@ == name@),
            None => plan.span_name@ == function@ && (plan.registry_key matches
                RegistryKey::InModule(key) && key@ == function@),
        },
        plan.run_under == if is_async {
            RunUnder::Future
        } else {
            RunUnder::Guard
        },
{
    let run_under = if is_async {
        RunUnder::Future
    } else {
        RunUnder::Guard
    };
    match given {
        Some(name) => Plan {
            span_name: name.to_owned(),
            registry_key: RegistryKey::Given(name.to_owned()),
            run_under,
        },
        None => Plan {
            span_name: function.to_owned(),
            registry_key: RegistryKey::InModule(function.to_owned()),
            run_under,
        },
    }
}

/// The way that a call takes.
#[derive(Debug, Clone, Copy, PartialEq, Eq, Structural)]
pub enum Route {
    /// Nobody traces the function: its body runs as it is.
    Plain,
    /// Somebody does: spans are started first.
    Traced,
}

/// The way that a call takes, from the slots that trace the function.
pub fn route(enabled_slots: u64) -> (route: Route)
    ensures
        route == if enabled_slots == 0 {
            Route::Plain
        } else {
            Route::Traced
        },
{
    if enabled_slots == 0 {
        Route::Plain
    } else {
        Route::Traced
    }
}

/// Which identifiers announce an argument: two do, each its own, and any other is named in the
/// refusal.
pub proof fn lemma_which_identifiers_announce_an_argument(
    ident: &str,
    announced: Result<Argument, ArgumentError>,
)
    requires
        call_ensures(argument, (ident,), announced),
    ensures
        announced matches Ok(a) && a == Argument::Name <==> ident@ == "name"@,
        announced matches Ok(a) && a == Argument::Fields <==> ident@ == "fields"@,
        announced is Err <==> ident@ != "name"@ && ident@ != "fields"@,
        announced matches Err(error) ==> (error matches ArgumentError::Unknown(unknown) && unknown@
            == ident@),
{
    reveal_strlit("name");
    reveal_strlit("fields");
    assert("name"@.len() != "fields"@.len());
}

/// Each argument can be given once, and giving it changes nothing of the other.
pub proof fn lemma_each_argument_can_be_given_once<L, F>(
    args: TraceableArgs<L, F>,
    name: L,
    fields: Vec<F>,
    named: Result<TraceableArgs<L, F>, ArgumentError>,
    fielded: Result<TraceableArgs<L, F>, ArgumentError>,
)
    requires
        call_ensures(TraceableArgs::<L, F>::with_name, (args, name), named),
        call_ensures(TraceableArgs::<L, F>::with_fields, (args, fields), fielded),
    ensures
        named is Ok <==> args.name is None,
        named matches Ok(more) ==> more.name == Some(name) && more.fields == args.fields,
        named matches Err(error) ==> error is DuplicateName,
        fielded is Ok <==> args.fields is None,
        fielded matches Ok(more) ==> more.fields == Some(fields) && more.name == args.name,
        fielded matches Err(error) ==> error is DuplicateFields,
{
}

/// The attributes are the fields that were given, all of them and in their order.
pub proof fn lemma_attributes_are_the_fields<L, F>(args: TraceableArgs<L, F>, attributes: Vec<F>)
    requires
        call_ensures(TraceableArgs::<L, F>::attributes, (args,), attributes),
    ensures
        args.fields matches Some(fields) ==> attributes@ == fields@,
        args.fields is None ==> attributes@.len() == 0,
{
}

/// A name that the attribute gives is the name of the spans and the registry key, in whatever
/// module the function stands. Without one the spans have the name of the function, and the
/// key is the path to it. A function that is async runs as a future.
pub proof fn lemma_what_a_function_goes_by(
    given: Option<&str>,
    function: &str,
    is_async: bool,
    made: Plan,
    module: &str,
    key: String,
)
    requires
        call_ensures(plan, (given, function, is_async), made),
        call_ensures(RegistryKey::in_module, (&made.registry_key, module), key),
    ensures
        given matches Some(name) ==> made.span_name@ == name@ && key@ == name@,
        given is None ==> made.span_name@ == function@ && key@ == module@ + "::"@ + function@,
        is_async <==> made.run_under == RunUnder::Future,
        !is_async <==> made.run_under == RunUnder::Guard,
{
}

/// A call is traced exactly if some slot has the function enabled.
pub proof fn lemma_traced_exactly_if_a_slot_is_enabled(enabled_slots: u64, way: Route)
    requires
        call_ensures(route, (enabled_slots,), way),
    ensures
        way == Route::Traced <==> exists|slot: u8| #[trigger]
            slot_set(enabled_slots).contains(slot),
        way == Route::Plain <==> slot_set(enabled_slots) == Set::<u8>::empty(),
{
    lemma_empty_mask(enabled_slots);
    if forall|slot: u8| !#[trigger] slot_set(enabled_slots).contains(slot) {
        assert(slot_set(enabled_slots) =~= Set::<u8>::empty());
    }
}

} // verus!
