//! Errors that a guest reports to its host.

use vstd::prelude::*;

verus! {

/// Kinds of guest error.
#[derive(Debug, Clone, Copy, PartialEq, Eq, Structural)]
pub enum ErrorCode {
    NoError,
    UnsupportedParameterType,
    GuestFunctionNameNotProvided,
    GuestFunctionNotFound,
    GuestFunctionIncorrecNoOfParameters,
    DispatchFunctionPointerNotSet,
    OutbError,
    UnknownError,
    StackOverflow,
    GsCheckFailed,
    TooManyGuestFunctions,
    FailureInDlmalloc,
    MallocFailed,
    GuestFunctionParameterTypeMismatch,
    GuestError,
    ArrayLengthParamIsMissing,
    HostFunctionError,
}

impl ErrorCode {
    /// The code's value on the wire.
    pub open spec fn wire(self) -> u64 {
        match self {
            ErrorCode::NoError => 0,
            ErrorCode::UnsupportedParameterType => 2,
            ErrorCode::GuestFunctionNameNotProvided => 3,
            ErrorCode::GuestFunctionNotFound => 4,
            ErrorCode::GuestFunctionIncorrecNoOfParameters => 5,
            ErrorCode::DispatchFunctionPointerNotSet => 6,
            ErrorCode::OutbError => 7,
            ErrorCode::UnknownError => 8,
            ErrorCode::StackOverflow => 9,
            ErrorCode::GsCheckFailed => 10,
            ErrorCode::TooManyGuestFunctions => 11,
            ErrorCode::FailureInDlmalloc => 12,
            ErrorCode::MallocFailed => 13,
            ErrorCode::GuestFunctionParameterTypeMismatch => 14,
            ErrorCode::GuestError => 15,
            ErrorCode::ArrayLengthParamIsMissing => 16,
            ErrorCode::HostFunctionError => 17,
        }
    }

    /// The code that a value on the wire stands for; a value that stands for none is an
    /// unknown error.
    pub open spec fn of_wire(value: u64) -> ErrorCode {
        if value == 0 {
            ErrorCode::NoError
        } else if value == 2 {
            ErrorCode::UnsupportedParameterType
        } else if value == 3 {
            ErrorCode::GuestFunctionNameNotProvided
        } else if value == 4 {
            ErrorCode::GuestFunctionNotFound
        } else if value == 5 {
            ErrorCode::GuestFunctionIncorrecNoOfParameters
        } else if value == 6 {
            ErrorCode::DispatchFunctionPointerNotSet
        } else if value == 7 {
            ErrorCode::OutbError
        } else if value == 9 {
            ErrorCode::StackOverflow
        } else if value == 10 {
            ErrorCode::GsCheckFailed
        } else if value == 11 {
            ErrorCode::TooManyGuestFunctions
        } else if value == 12 {
            ErrorCode::FailureInDlmalloc
        } else if value == 13 {
            ErrorCode::MallocFailed
        } else if value == 14 {
            ErrorCode::GuestFunctionParameterTypeMismatch
        } else if value == 15 {
            ErrorCode::GuestError
        } else if value == 16 {
            ErrorCode::ArrayLengthParamIsMissing
        } else if value == 17 {
            ErrorCode::HostFunctionError
        } else {
            ErrorCode::UnknownError
        }
    }

    /// The code's value on the wire.
    pub fn code(self) -> (value: u64)
        ensures
            value == self.wire(),
    {
        match self {
            ErrorCode::NoError => 0,
            ErrorCode::UnsupportedParameterType => 2,
            ErrorCode::GuestFunctionNameNotProvided => 3,
            ErrorCode::GuestFunctionNotFound => 4,
            ErrorCode::GuestFunctionIncorrecNoOfParameters => 5,
            ErrorCode::DispatchFunctionPointerNotSet => 6,
            ErrorCode::OutbError => 7,
            ErrorCode::UnknownError => 8,
            ErrorCode::StackOverflow => 9,
            ErrorCode::GsCheckFailed => 10,
            ErrorCode::TooManyGuestFunctions => 11,
            ErrorCode::FailureInDlmalloc => 12,
            ErrorCode::MallocFailed => 13,
            ErrorCode::GuestFunctionParameterTypeMismatch => 14,
            ErrorCode::GuestError => 15,
            ErrorCode::ArrayLengthParamIsMissing => 16,
            ErrorCode::HostFunctionError => 17,
        }
    }
}

impl From<u64> for ErrorCode {
    fn from(value: u64) -> (code: ErrorCode) {
        match value {
            0 => ErrorCode::NoError,
            2 => ErrorCode::UnsupportedParameterType,
            3 => ErrorCode::GuestFunctionNameNotProvided,
            4 => ErrorCode::GuestFunctionNotFound,
            5 => ErrorCode::GuestFunctionIncorrecNoOfParameters,
            6 => ErrorCode::DispatchFunctionPointerNotSet,
            7 => ErrorCode::OutbError,
            9 => ErrorCode::StackOverflow,
            10 => ErrorCode::GsCheckFailed,
            11 => ErrorCode::TooManyGuestFunctions,
            12 => ErrorCode::FailureInDlmalloc,
            13 => ErrorCode::MallocFailed,
            14 => ErrorCode::GuestFunctionParameterTypeMismatch,
            15 => ErrorCode::GuestError,
            16 => ErrorCode::ArrayLengthParamIsMissing,
            17 => ErrorCode::HostFunctionError,
            _ => ErrorCode::UnknownError,
        }
    }
}

impl vstd::std_specs::convert::FromSpecImpl<u64> for ErrorCode {
    open spec fn obeys_from_spec() -> bool {
        true
    }

    open spec fn from_spec(value: u64) -> ErrorCode {
        ErrorCode::of_wire(value)
    }
}

/// A code survives the wire.
pub proof fn law_error_code_round_trip(code: ErrorCode)
    ensures
        ErrorCode::of_wire(code.wire()) == code,
{
}

/// An error with its message.
#[derive(Debug, Clone, PartialEq, Eq)]
pub struct GuestError {
    pub code: ErrorCode,
    pub message: String,
}

impl GuestError {
    pub fn new(code: ErrorCode, message: String) -> (error: GuestError)
        ensures
            error.code == code,
            error.message == message,
    {
        GuestError { code, message }
    }
}

} // verus!
