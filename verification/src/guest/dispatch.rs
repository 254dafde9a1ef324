//! Which function a call reaches, and what its outcome means.

use vstd::prelude::*;
use vstd::string::*;

use crate::flatbuffer_wrappers::function_call::{FunctionCall, FunctionCallType};
use crate::flatbuffer_wrappers::function_types::{
    ParameterType, ParameterValue, ReturnType, ReturnValue,
};
use crate::flatbuffer_wrappers::guest_error::{ErrorCode, GuestError};
use crate::text;
use crate::text::debug_of;

verus! {

/// A call does not reach a function.
#[derive(Debug, Clone, PartialEq, Eq)]
pub enum DispatchError {
    /// The call is not meant for the guest.
    NotAGuestCall,
    /// The function takes another number of parameters.
    ParameterCount { expected: usize, given: usize },
    /// A parameter has another type.
    ParameterMismatch { index: usize, expected: ParameterType, given: ParameterType },
    /// The guest reported an error.
    Guest(GuestError),
    /// A registered function returned nothing.
    NullResult,
    /// No function has this name.
    NotFound,
    /// The guest has no dispatch function of its own.
    NoHandler,
    /// A call to print output carries no text.
    WrongParameters,
    /// A host function returned another type.
    ReturnMismatch,
}

impl DispatchError {
    /// The code that the host is told.
    pub open spec fn wire_code(self) -> ErrorCode {
        match self {
            DispatchError::NotAGuestCall => ErrorCode::GuestError,
            DispatchError::ParameterCount { .. } => ErrorCode::GuestFunctionIncorrecNoOfParameters,
            DispatchError::ParameterMismatch { .. } =>
                ErrorCode::GuestFunctionParameterTypeMismatch,
            DispatchError::Guest(error) => error.code,
            DispatchError::NullResult => ErrorCode::GuestError,
            DispatchError::NotFound => ErrorCode::GuestFunctionNotFound,
            DispatchError::NoHandler => ErrorCode::GuestFunctionNotFound,
            DispatchError::WrongParameters => ErrorCode::GuestError,
            DispatchError::ReturnMismatch => ErrorCode::GuestError,
        }
    }

    /// The code that the host is told.
    pub fn code(&self) -> (code: ErrorCode)
        ensures
            code == self.wire_code(),
    {
        match self {
            DispatchError::NotAGuestCall => ErrorCode::GuestError,
            DispatchError::ParameterCount { .. } => ErrorCode::GuestFunctionIncorrecNoOfParameters,
            DispatchError::ParameterMismatch { .. } =>
                ErrorCode::GuestFunctionParameterTypeMismatch,
            DispatchError::Guest(error) => error.code,
            DispatchError::NullResult => ErrorCode::GuestError,
            DispatchError::NotFound => ErrorCode::GuestFunctionNotFound,
            DispatchError::NoHandler => ErrorCode::GuestFunctionNotFound,
            DispatchError::WrongParameters => ErrorCode::GuestError,
            DispatchError::ReturnMismatch => ErrorCode::GuestError,
        }
    }
}

impl DispatchError {
    /// The message that the host is told about a call of the function `name`. Parameters
    /// that do not fit speak for themselves.
    pub open spec fn message_of(self, name: Seq<char>) -> Option<Seq<char>> {
        match self {
            DispatchError::NotAGuestCall => Some(
                "Invalid function call type: Host, should be Guest."@,
            ),
            DispatchError::ParameterCount { .. } => None,
            DispatchError::ParameterMismatch { .. } => None,
            DispatchError::Guest(error) => Some(error.message@),
            DispatchError::NullResult => Some(
                "C guest function "@ + text::debug_text(name) + " returned null"@,
            ),
            DispatchError::NotFound => Some(name),
            DispatchError::NoHandler => Some(
                "No handler found for function call: "@ + text::debug_text(name),
            ),
            DispatchError::WrongParameters => Some(
                "Wrong Parameters passed to print_output_with_host_print"@,
            ),
            DispatchError::ReturnMismatch => Some("G2H: host return value type mismatch"@),
        }
    }

    /// The message that the host is told about a call of the function `name`. Parameters
    /// that do not fit speak for themselves.
    pub fn message(&self, name: &str) -> (message: Option<String>)
        ensures
            match message {
                Some(m) => self.message_of(name@) == Some(m@),
                None => self.message_of(name@) is None,
            },
    {
        match self {
            DispatchError::NotAGuestCall => Some(
                "Invalid function call type: Host, should be Guest.".to_owned(),
            ),
            DispatchError::ParameterCount { .. } => None,
            DispatchError::ParameterMismatch { .. } => None,
            DispatchError::Guest(error) => Some(error.message.as_str().to_owned()),
            DispatchError::NullResult => {
                let shown = debug_of(name);
                let mut message = "C guest function ".to_owned();
                message.append(shown.as_str());
                message.append(" returned null");
                Some(message)
            },
            DispatchError::NotFound => Some(name.to_owned()),
            DispatchError::NoHandler => {
                let shown = debug_of(name);
                let mut message = "No handler found for function call: ".to_owned();
                message.append(shown.as_str());
                Some(message)
            },
            DispatchError::WrongParameters => Some(
                "Wrong Parameters passed to print_output_with_host_print".to_owned(),
            ),
            DispatchError::ReturnMismatch => Some(
                "G2H: host return value type mismatch".to_owned(),
            ),
        }
    }
}

/// The types of parameters.
pub open spec fn kinds(values: Seq<ParameterValue>) -> Seq<ParameterType> {
    values.map_values(|v: ParameterValue| v.kind())
}

/// The types of a call's parameters.
pub fn parameter_types(call: &FunctionCall) -> (types: Vec<ParameterType>)
    ensures
        types@ == kinds(call.parameter_list()),
{
    let mut types: Vec<ParameterType> = Vec::new();
    if let Some(parameters) = &call.parameters {
        let mut i: usize = 0;
        while i < parameters.len()
            invariant
                i <= parameters@.len(),
                types@ == kinds(parameters@.take(i as int)),
            decreases parameters@.len() - i,
        {
            types.push(ParameterType::from(&parameters[i]));
            i += 1;
            proof {
                assert(types@ =~= kinds(parameters@.take(i as int)));
            }
        }
        proof {
            assert(parameters@.take(i as int) =~= parameters@);
        }
    }
    proof {
        assert(types@ =~= kinds(call.parameter_list()));
    }
    types
}

/// The first parameter from an index on that has another type.
pub open spec fn mismatch(
    expected: Seq<ParameterType>,
    given: Seq<ParameterType>,
    from: int,
) -> Option<int>
    decreases expected.len() - from,
{
    if from >= expected.len() {
        None
    } else if expected[from] != given[from] {
        Some(from)
    } else {
        mismatch(expected, given, from + 1)
    }
}

/// Whether the parameters of a call are those of a function: as many, and of the same types.
pub open spec fn check_of(expected: Seq<ParameterType>, given: Seq<ParameterType>) -> Result<
    (),
    DispatchError,
> {
    if expected.len() != given.len() {
        Err(
            DispatchError::ParameterCount {
                expected: expected.len() as usize,
                given: given.len() as usize,
            },
        )
    } else {
        match mismatch(expected, given, 0) {
            Some(index) => Err(
                DispatchError::ParameterMismatch {
                    index: index as usize,
                    expected: expected[index],
                    given: given[index],
                },
            ),
            None => Ok(()),
        }
    }
}

/// Check the parameters of a call against those of a function.
pub fn verify_parameters(expected: &[ParameterType], given: &[ParameterType]) -> (checked: Result<
    (),
    DispatchError,
>)
    ensures
        checked == check_of(expected@, given@),
        checked is Ok <==> expected@ == given@,
{
    if expected.len() != given.len() {
        return Err(
            DispatchError::ParameterCount { expected: expected.len(), given: given.len() },
        );
    }
    let mut i: usize = 0;
    while i < expected.len()
        invariant
            i <= expected@.len(),
            expected@.len() == given@.len(),
            forall|k: int| 0 <= k < i ==> expected@[k] == given@[k],
            mismatch(expected@, given@, 0) == mismatch(expected@, given@, i as int),
        decreases expected@.len() - i,
    {
        if expected[i] != given[i] {
            return Err(
                DispatchError::ParameterMismatch {
                    index: i,
                    expected: expected[i],
                    given: given[i],
                },
            );
        }
        i += 1;
    }
    proof {
        assert(expected@ =~= given@);
    }
    Ok(())
}

/// Where a call goes.
#[derive(Debug, Clone, Copy, PartialEq, Eq, Structural)]
pub enum Route {
    /// To the registered function.
    Registered,
    /// To the guest's own dispatch function.
    Fallback,
}

/// Where a call for the guest goes, given the parameter types of the function that is
/// registered under its name, if one is.
pub open spec fn route_of(
    registered: Option<Seq<ParameterType>>,
    parameters: Seq<ParameterValue>,
) -> Result<Route, DispatchError> {
    match registered {
        None => Ok(Route::Fallback),
        Some(expected) => match check_of(expected, kinds(parameters)) {
            Ok(_) => Ok(Route::Registered),
            Err(error) => Err(error),
        },
    }
}

/// The view of parameter types that may be absent.
pub open spec fn types_view(types: Option<&Vec<ParameterType>>) -> Option<Seq<ParameterType>> {
    match types {
        Some(types) => Some(types@),
        None => None,
    }
}

/// Route a call from the host, given the parameter types of the function that is registered
/// under its name, if one is.
pub fn call_guest_function(call: &FunctionCall, registered: Option<&Vec<ParameterType>>) -> (route:
    Result<Route, DispatchError>)
    ensures
        call.function_call_type != FunctionCallType::Guest ==> route == Err::<Route, DispatchError>(
            DispatchError::NotAGuestCall,
        ),
        call.function_call_type == FunctionCallType::Guest ==> route == route_of(
            types_view(registered),
            call.parameter_list(),
        ),
        call.function_call_type == FunctionCallType::Guest ==> match registered {
            None => route == Ok::<Route, DispatchError>(Route::Fallback),
            Some(expected) => route == match check_of(
                expected@,
                kinds(call.parameter_list()),
            ) {
                Ok(_) => Ok::<Route, DispatchError>(Route::Registered),
                Err(error) => Err::<Route, DispatchError>(error),
            },
        },
{
    match call.function_call_type() {
        FunctionCallType::Guest => {},
        FunctionCallType::Host => return Err(DispatchError::NotAGuestCall),
    }
    route_registered(call, registered)
}

/// Route a call to a registered function, if its parameters fit, or to the fallback.
pub fn route_registered(call: &FunctionCall, registered: Option<&Vec<ParameterType>>) -> (route:
    Result<Route, DispatchError>)
    ensures
        route == route_of(types_view(registered), call.parameter_list()),
        match registered {
            None => route == Ok::<Route, DispatchError>(Route::Fallback),
            Some(expected) => route == match check_of(
                expected@,
                kinds(call.parameter_list()),
            ) {
                Ok(_) => Ok::<Route, DispatchError>(Route::Registered),
                Err(error) => Err::<Route, DispatchError>(error),
            },
        },
{
    match registered {
        Some(expected) => {
            let given = parameter_types(call);
            match verify_parameters(expected.as_slice(), given.as_slice()) {
                Ok(()) => Ok(Route::Registered),
                Err(error) => Err(error),
            }
        },
        None => Ok(Route::Fallback),
    }
}

/// What a C guest function's return means.
pub open spec fn outcome_of(
    error: Option<GuestError>,
    returned: Option<ReturnValue>,
    route: Route,
) -> Result<ReturnValue, DispatchError> {
    match (error, returned) {
        (Some(error), _) => Err(DispatchError::Guest(error)),
        (None, Some(value)) => Ok(value),
        (None, None) => Err(
            match route {
                Route::Registered => DispatchError::NullResult,
                Route::Fallback => DispatchError::NotFound,
            },
        ),
    }
}

/// What a C guest function's return means: an error that was set comes first, then the
/// value. Nothing at all means that a registered function failed, or that no function has
/// the name.
pub fn c_call_outcome(
    error: Option<GuestError>,
    returned: Option<ReturnValue>,
    route: Route,
) -> (outcome: Result<ReturnValue, DispatchError>)
    ensures
        outcome == outcome_of(error, returned, route),
        outcome == match (error, returned) {
            (Some(error), _) => Err::<ReturnValue, DispatchError>(DispatchError::Guest(error)),
            (None, Some(value)) => Ok::<ReturnValue, DispatchError>(value),
            (None, None) => Err::<ReturnValue, DispatchError>(
                match route {
                    Route::Registered => DispatchError::NullResult,
                    Route::Fallback => DispatchError::NotFound,
                },
            ),
        },
{
    match error {
        Some(error) => Err(DispatchError::Guest(error)),
        None => match returned {
            Some(value) => Ok(value),
            None => match route {
                Route::Registered => Err(DispatchError::NullResult),
                Route::Fallback => Err(DispatchError::NotFound),
            },
        },
    }
}

/// What a slot gives when it is taken from, and what it holds then.
pub open spec fn taken_from<T>(held: Option<T>) -> (Option<T>, Option<T>) {
    (held, None)
}

/// The last error or result of a C guest: setting it replaces it, taking it leaves none.
#[derive(Debug)]
pub struct Slot<T> {
    value: Option<T>,
}

impl<T> Slot<T> {
    pub closed spec fn held(&self) -> Option<T> {
        self.value
    }

    /// Nothing is held.
    pub fn new() -> (slot: Self)
        ensures
            slot.held() is None,
    {
        Slot { value: None }
    }

    /// Hold a value in place of any other.
    pub fn set(&mut self, value: T)
        ensures
            final(self).held() == Some(value),
    {
        self.value = Some(value);
    }

    /// Take what is held.
    pub fn take(&mut self) -> (value: Option<T>)
        ensures
            (value, final(self).held()) == taken_from(old(self).held()),
            value == old(self).held(),
            final(self).held() is None,
    {
        self.value.take()
    }
}

/// The dispatch function of a guest that has none of its own: no function is found.
pub fn guest_dispatch_function_default(call: FunctionCall) -> (outcome: Result<
    ReturnValue,
    DispatchError,
>)
    ensures
        outcome == Err::<ReturnValue, DispatchError>(DispatchError::NoHandler),
{
    let _ = call;
    Err(DispatchError::NoHandler)
}

/// The call that prints a message on the host.
pub open spec fn host_print(call: FunctionCall, text: String) -> bool {
    &&& call.function_name@ == "HostPrint"@
    &&& call.parameter_list() == seq![ParameterValue::String(text)]
    &&& call.parameters is Some
    &&& call.function_call_type == FunctionCallType::Host
    &&& call.expected_return_type == ReturnType::Int
}

/// The text that a call to print output carries.
pub open spec fn print_text(parameters: Seq<ParameterValue>) -> Option<String> {
    match parameters[0] {
        ParameterValue::String(text) => Some(text),
        _ => None,
    }
}

/// The host function call that prints the message of a call to print output: its first
/// parameter, if that is a string.
pub fn print_message(call: FunctionCall) -> (print: Result<FunctionCall, DispatchError>)
    requires
        call.parameter_list().len() > 0,
    ensures
        match print_text(call.parameter_list()) {
            Some(text) => print is Ok && host_print(print->Ok_0, text),
            None => print is Err && print->Err_0 == DispatchError::WrongParameters,
        },
        match call.parameter_list()[0] {
            ParameterValue::String(text) => print is Ok && host_print(print->Ok_0, text),
            _ => print is Err && print->Err_0 == DispatchError::WrongParameters,
        },
{
    let mut parameters = match call.parameters {
        Some(parameters) => parameters,
        None => Vec::new(),
    };
    match parameters.remove(0) {
        ParameterValue::String(text) => {
            let mut printed: Vec<ParameterValue> = Vec::new();
            printed.push(ParameterValue::String(text));
            proof {
                assert(printed@ =~= seq![ParameterValue::String(text)]);
            }
            Ok(
                FunctionCall::new(
                    "HostPrint".to_owned(),
                    Some(printed),
                    FunctionCallType::Host,
                    ReturnType::Int,
                ),
            )
        },
        _ => Err(DispatchError::WrongParameters),
    }
}

/// What printing a message returns.
pub open spec fn printed_of(value: ReturnValue) -> Result<ReturnValue, DispatchError> {
    match value {
        ReturnValue::Int(_) => Ok(value),
        _ => Err(DispatchError::ReturnMismatch),
    }
}

/// What printing a message returns: the integer that the host returned.
pub fn printed(value: ReturnValue) -> (outcome: Result<ReturnValue, DispatchError>)
    ensures
        outcome == printed_of(value),
        outcome == match value {
            ReturnValue::Int(_) => Ok::<ReturnValue, DispatchError>(value),
            _ => Err::<ReturnValue, DispatchError>(DispatchError::ReturnMismatch),
        },
{
    match i32::try_from(value) {
        Ok(res) => Ok(ReturnValue::Int(res)),
        Err(_) => Err(DispatchError::ReturnMismatch),
    }
}

/// Whether a parameter is a value of a type.
pub open spec fn is_of(value: ParameterValue, kind: ParameterType) -> bool {
    match kind {
        ParameterType::Int => value is Int,
        ParameterType::UInt => value is UInt,
        ParameterType::Long => value is Long,
        ParameterType::ULong => value is ULong,
        ParameterType::Float => value is Float,
        ParameterType::Double => value is Double,
        ParameterType::String => value is String,
        ParameterType::Bool => value is Bool,
        ParameterType::VecBytes => value is VecBytes,
        ParameterType::ByteChunks => value is ByteChunks,
    }
}

/// The first mismatch has none before it.
proof fn lemma_first_mismatch(expected: Seq<ParameterType>, given: Seq<ParameterType>, from: int)
    requires
        0 <= from <= expected.len(),
    ensures
        match mismatch(expected, given, from) {
            Some(index) => {
                &&& from <= index < expected.len()
                &&& expected[index] != given[index]
                &&& forall|i: int| from <= i < index ==> expected[i] == #[trigger] given[i]
            },
            None => forall|i: int| from <= i < expected.len() ==> expected[i] == #[trigger] given[i],
        },
    decreases expected.len() - from,
{
    if from < expected.len() && expected[from] == given[from] {
        lemma_first_mismatch(expected, given, from + 1);
    }
}

/// A call fits a function exactly when it has a value of each type that the function takes,
/// in that order.
pub proof fn law_values_of_the_registered_types_fit(
    expected: Seq<ParameterType>,
    values: Seq<ParameterValue>,
)
    ensures
        check_of(expected, kinds(values)) is Ok <==> expected.len() == values.len() && forall|i: int|
            0 <= i < values.len() ==> is_of(#[trigger] values[i], expected[i]),
{
    let given = kinds(values);
    lemma_first_mismatch(expected, given, 0);
    if expected.len() == values.len() {
        assert forall|i: int| 0 <= i < values.len() implies (is_of(#[trigger] values[i], expected[i])
            <==> expected[i] == given[i]) by {
            assert(given[i] == values[i].kind());
        }
        if check_of(expected, given) is Ok {
            assert forall|i: int| 0 <= i < values.len() implies is_of(
                #[trigger] values[i],
                expected[i],
            ) by {
                assert(expected[i] == given[i]);
            }
        } else {
            let index = mismatch(expected, given, 0)->0;
            assert(!is_of(values[index], expected[index]));
        }
    }
}

/// A call that does not fit is answered with its number of parameters, where that differs,
/// and else with the first parameter of another type.
pub proof fn law_refusal_names_the_first_difference(
    expected: Seq<ParameterType>,
    given: Seq<ParameterType>,
)
    requires
        expected.len() <= usize::MAX,
        given.len() <= usize::MAX,
    ensures
        expected == given ==> check_of(expected, given) is Ok,
        match check_of(expected, given) {
            Ok(_) => expected == given,
            Err(DispatchError::ParameterCount { expected: wanted, given: had }) => {
                &&& wanted == expected.len()
                &&& had == given.len()
                &&& wanted != had
            },
            Err(DispatchError::ParameterMismatch { index, expected: wanted, given: had }) => {
                &&& expected.len() == given.len()
                &&& index < expected.len()
                &&& wanted == expected[index as int]
                &&& had == given[index as int]
                &&& wanted != had
                &&& expected.take(index as int) == given.take(index as int)
            },
            Err(_) => false,
        },
{
    lemma_first_mismatch(expected, given, 0);
    if expected.len() == given.len() {
        match mismatch(expected, given, 0) {
            Some(index) => {
                assert(expected.take(index) =~= given.take(index));
            },
            None => {
                assert(expected =~= given);
            },
        }
    }
}

/// An error that the guest reports reaches the host as it is.
pub proof fn law_reported_error_is_passed_on(error: GuestError, name: Seq<char>)
    ensures
        DispatchError::Guest(error).wire_code() == error.code,
        DispatchError::Guest(error).message_of(name) == Some(error.message@),
{
}

/// Each way in which a call fails to fit has a code of its own, whatever the parameters are,
/// and so has a function that is not there.
pub proof fn law_misdirected_calls_are_told_apart(error: DispatchError)
    requires
        error !is Guest,
    ensures
        error is ParameterCount <==> error.wire_code()
            == ErrorCode::GuestFunctionIncorrecNoOfParameters,
        error is ParameterMismatch <==> error.wire_code()
            == ErrorCode::GuestFunctionParameterTypeMismatch,
        error is NotFound || error is NoHandler <==> error.wire_code()
            == ErrorCode::GuestFunctionNotFound,
        error is NotAGuestCall || error is NullResult || error is WrongParameters
            || error is ReturnMismatch <==> error.wire_code() == ErrorCode::GuestError,
{
}

/// What the host is told about a function that is missing or that failed names it.
pub proof fn law_message_names_the_function(error: DispatchError, name: Seq<char>)
    ensures
        error is NotFound ==> error.message_of(name) == Some(name),
        error is NullResult || error is NoHandler ==> exists|before: Seq<char>, after: Seq<char>|
            error.message_of(name) == Some(#[trigger] (before + (text::debug_text(name) + after))),
        error is ParameterCount || error is ParameterMismatch <==> error.message_of(name) is None,
{
    let shown = text::debug_text(name);
    if error is NullResult {
        let before = "C guest function "@;
        let after = " returned null"@;
        assert(before + shown + after =~= before + (shown + after));
    }
    if error is NoHandler {
        let before = "No handler found for function call: "@;
        let after = Seq::<char>::empty();
        assert(before + shown =~= before + (shown + after));
    }
}

/// A call reaches the function that is registered under its name exactly when its parameters
/// are values of the types that the function takes. Where none is registered it reaches the
/// guest's own dispatch function, whatever its parameters are.
pub proof fn law_fitting_call_reaches_its_function(
    registered: Option<Seq<ParameterType>>,
    parameters: Seq<ParameterValue>,
)
    ensures
        registered is None <==> route_of(registered, parameters) == Ok::<Route, DispatchError>(
            Route::Fallback,
        ),
        registered matches Some(expected) ==> {
            let fits = expected.len() == parameters.len() && forall|i: int|
                0 <= i < parameters.len() ==> is_of(#[trigger] parameters[i], expected[i]);
            &&& route_of(registered, parameters) == Ok::<Route, DispatchError>(Route::Registered)
                <==> fits
            &&& route_of(registered, parameters) is Err <==> !fits
            &&& expected.len() != parameters.len() ==> (route_of(registered, parameters) matches Err(
                e,
            ) && e is ParameterCount)
            &&& expected.len() == parameters.len() && !fits ==> (route_of(
                registered,
                parameters,
            ) matches Err(e) && e is ParameterMismatch)
        },
{
    if let Some(expected) = registered {
        law_values_of_the_registered_types_fit(expected, parameters);
    }
}

/// An error that a guest function set is reported whatever it returned; without an error, what
/// it returned is the result. One that did neither failed, if it is registered, and otherwise
/// is not there.
pub proof fn law_set_error_comes_before_the_value(
    error: GuestError,
    returned: Option<ReturnValue>,
    value: ReturnValue,
    route: Route,
)
    ensures
        outcome_of(Some(error), returned, route) == Err::<ReturnValue, DispatchError>(
            DispatchError::Guest(error),
        ),
        outcome_of(None, Some(value), route) == Ok::<ReturnValue, DispatchError>(value),
        outcome_of(None, None, Route::Registered) == Err::<ReturnValue, DispatchError>(
            DispatchError::NullResult,
        ),
        outcome_of(None, None, Route::Fallback) == Err::<ReturnValue, DispatchError>(
            DispatchError::NotFound,
        ),
{
}

/// Printing returns what the host returned, if that is an integer, and nothing else.
pub proof fn law_printing_returns_an_integer(value: ReturnValue)
    ensures
        match printed_of(value) {
            Ok(returned) => returned == value && value is Int,
            Err(error) => error == DispatchError::ReturnMismatch && !(value is Int),
        },
{
}

/// The host is asked to print the text as it is, and answers with an integer.
pub proof fn law_host_prints_the_text(call: FunctionCall, text: String)
    requires
        host_print(call, text),
    ensures
        call.function_name@ == "HostPrint"@,
        call.parameter_list().len() == 1,
        call.parameter_list()[0]@ == ParameterValue::String(text)@,
        call.function_call_type == FunctionCallType::Host,
        call.expected_return_type == ReturnType::Int,
{
}

/// The text to print is the first parameter, whatever follows it; a first parameter of another
/// type is no text.
pub proof fn law_first_parameter_is_printed(
    text: String,
    first: ParameterValue,
    others: Seq<ParameterValue>,
)
    ensures
        print_text(seq![ParameterValue::String(text)] + others) == Some(text),
        !(first is String) ==> print_text(seq![first] + others) is None,
{
}

/// What was set is taken once: the second time there is nothing.
pub proof fn law_what_was_set_is_taken_once<T>(value: T, held: Option<T>)
    ensures
        taken_from(Some(value)).0 == Some(value),
        taken_from(taken_from(held).1).0 is None,
{
}

} // verus!
