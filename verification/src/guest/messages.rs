//! What to tell of a failed transport.

use vstd::prelude::*;
use vstd::string::*;

use super::codec::CodecError;
use super::context::ContextError;

verus! {

/// What the guest was about when its transport failed.
#[derive(Debug, Clone, Copy, PartialEq, Eq, Structural)]
pub enum Task {
    /// Making the queues.
    Setup,
    /// Calling a host function.
    Call,
    /// Sending a log record.
    Log,
    /// Receiving a message of the host.
    Receive,
    /// Returning the result of a guest function.
    Respond,
    /// Preparing a snapshot.
    Snapshot,
}

impl CodecError {
    /// What to tell of a message that cannot be used, apart from what is wrong with its control
    /// data. `response` says that the host was to answer.
    pub open spec fn message_of(self, response: bool) -> Seq<char> {
        match self {
            CodecError::MissingHeader => "virtqueue message is missing its header"@,
            CodecError::InvalidHeader => "Virtqueue message has an invalid header"@,
            CodecError::LengthMismatch => "Virtqueue message payload length mismatch"@,
            CodecError::MissingPrefix => "virtqueue message is missing its size prefix"@,
            CodecError::ControlOverflow => "virtqueue message control length overflow"@,
            CodecError::Truncated => "virtqueue message control data is truncated"@,
            CodecError::NotAResponse => "Host function response has an invalid message kind"@,
            CodecError::CidMismatch => "Host function response correlation ID mismatch"@,
            CodecError::Wire(_) => if response {
                "failed to decode host function response"@
            } else {
                "failed to decode guest function request"@
            },
        }
    }

    /// What to tell of a message that cannot be used, apart from what is wrong with its control
    /// data. `response` says that the host was to answer.
    pub fn message(&self, response: bool) -> (message: String)
        ensures
            message@ == self.message_of(response),
    {
        let message = match self {
            CodecError::MissingHeader => "virtqueue message is missing its header",
            CodecError::InvalidHeader => "Virtqueue message has an invalid header",
            CodecError::LengthMismatch => "Virtqueue message payload length mismatch",
            CodecError::MissingPrefix => "virtqueue message is missing its size prefix",
            CodecError::ControlOverflow => "virtqueue message control length overflow",
            CodecError::Truncated => "virtqueue message control data is truncated",
            CodecError::NotAResponse => "Host function response has an invalid message kind",
            CodecError::CidMismatch => "Host function response correlation ID mismatch",
            CodecError::Wire(_) => if response {
                "failed to decode host function response"
            } else {
                "failed to decode guest function request"
            },
        };
        message.to_owned()
    }
}

impl ContextError {
    /// What to tell of the step that failed, apart from its cause. A queue that cannot be polled
    /// and a count that cannot be published have no more to tell than their cause.
    pub open spec fn message_of(self, task: Task) -> Option<Seq<char>> {
        match self {
            ContextError::G2hPool(_) => Some("failed to create G2H pool"@),
            ContextError::H2gPool(_) => Some("failed to create H2G slot pool"@),
            ContextError::Prefill(_) => Some("H2G prefill"@),
            ContextError::Encode(_) => Some(
                if task == Task::Respond {
                    "failed to encode guest function result"@
                } else {
                    "failed to encode host function call"@
                },
            ),
            ContextError::MessageOverflow => Some(
                if task == Task::Respond {
                    "G2H response length overflow"@
                } else {
                    "G2H message length overflow"@
                },
            ),
            ContextError::Send(_) => Some(
                match task {
                    Task::Log => "G2H one-way message"@,
                    Task::Respond => "G2H response submission failed"@,
                    _ => "G2H call"@,
                },
            ),
            ContextError::Retry(_) => Some(
                if task == Task::Log {
                    "G2H one-way retry"@
                } else {
                    "G2H call retry"@
                },
            ),
            ContextError::Reclaim(_) => Some(
                match task {
                    Task::Log => "G2H one-way reclaim"@,
                    Task::Receive => "G2H completion reclaim failed"@,
                    Task::Respond => "G2H response reclaim failed"@,
                    Task::Snapshot => "G2H snapshot reclaim failed"@,
                    _ => "G2H reclaim"@,
                },
            ),
            ContextError::Poll(_) => None,
            ContextError::NoChain { begun } => Some(
                if task != Task::Receive {
                    "G2H: no reply received"@
                } else if begun {
                    "H2G: expected a continuation buffer"@
                } else {
                    "H2G: expected a guest function call buffer"@
                },
            ),
            ContextError::UnexpectedReply => Some("G2H: unexpected reply token"@),
            ContextError::AckOnly { begun } => Some(
                if task != Task::Receive {
                    "G2H: response was ack-only"@
                } else if begun {
                    "H2G continuation buffer was ack-only"@
                } else {
                    "H2G: guest function call buffer was ack-only"@
                },
            ),
            ContextError::Header(error) => Some(
                if error == CodecError::MissingHeader {
                    "H2G buffer is missing its message header"@
                } else {
                    "H2G buffer has an invalid message header"@
                },
            ),
            ContextError::Framing => Some("H2G buffer has invalid request framing"@),
            ContextError::TooLong { begun } => Some(
                if begun {
                    "H2G buffers exceed the declared payload length"@
                } else {
                    "H2G first buffer exceeds the declared payload length"@
                },
            ),
            ContextError::EmptyContinuation => Some("H2G continuation buffer is empty"@),
            ContextError::Codec(error) => Some(error.message_of(task != Task::Receive)),
            ContextError::Guest(error) => Some(error.message@),
            ContextError::G2hReset(_) => Some("G2H snapshot reset failed"@),
            ContextError::H2gReset(_) => Some("H2G snapshot reset failed"@),
            ContextError::Publish(_) => None,
        }
    }

    /// What to tell of the step that failed, apart from its cause. A queue that cannot be polled
    /// and a count that cannot be published have no more to tell than their cause.
    pub fn message(&self, task: Task) -> (message: Option<String>)
        ensures
            match message {
                Some(m) => self.message_of(task) == Some(m@),
                None => self.message_of(task) is None,
            },
    {
        let respond: bool = task == Task::Respond;
        let log: bool = task == Task::Log;
        let receive: bool = task == Task::Receive;
        let message = match self {
            ContextError::G2hPool(_) => "failed to create G2H pool",
            ContextError::H2gPool(_) => "failed to create H2G slot pool",
            ContextError::Prefill(_) => "H2G prefill",
            ContextError::Encode(_) => if respond {
                "failed to encode guest function result"
            } else {
                "failed to encode host function call"
            },
            ContextError::MessageOverflow => if respond {
                "G2H response length overflow"
            } else {
                "G2H message length overflow"
            },
            ContextError::Send(_) => if log {
                "G2H one-way message"
            } else if respond {
                "G2H response submission failed"
            } else {
                "G2H call"
            },
            ContextError::Retry(_) => if log {
                "G2H one-way retry"
            } else {
                "G2H call retry"
            },
            ContextError::Reclaim(_) => match task {
                Task::Log => "G2H one-way reclaim",
                Task::Receive => "G2H completion reclaim failed",
                Task::Respond => "G2H response reclaim failed",
                Task::Snapshot => "G2H snapshot reclaim failed",
                _ => "G2H reclaim",
            },
            ContextError::Poll(_) => return None,
            ContextError::NoChain { begun } => if !receive {
                "G2H: no reply received"
            } else if *begun {
                "H2G: expected a continuation buffer"
            } else {
                "H2G: expected a guest function call buffer"
            },
            ContextError::UnexpectedReply => "G2H: unexpected reply token",
            ContextError::AckOnly { begun } => if !receive {
                "G2H: response was ack-only"
            } else if *begun {
                "H2G continuation buffer was ack-only"
            } else {
                "H2G: guest function call buffer was ack-only"
            },
            ContextError::Header(error) => match error {
                CodecError::MissingHeader => "H2G buffer is missing its message header",
                _ => "H2G buffer has an invalid message header",
            },
            ContextError::Framing => "H2G buffer has invalid request framing",
            ContextError::TooLong { begun } => if *begun {
                "H2G buffers exceed the declared payload length"
            } else {
                "H2G first buffer exceeds the declared payload length"
            },
            ContextError::EmptyContinuation => "H2G continuation buffer is empty",
            ContextError::Codec(error) => return Some(error.message(!receive)),
            ContextError::Guest(error) => error.message.as_str(),
            ContextError::G2hReset(_) => "G2H snapshot reset failed",
            ContextError::H2gReset(_) => "H2G snapshot reset failed",
            ContextError::Publish(_) => return None,
        };
        Some(message.to_owned())
    }
}

/// Errors that speak for themselves are passed on: that of the guest as it is, and that of the
/// codec as the codec tells it. Only a queue that cannot be polled and a count that cannot be
/// published are left to their cause.
pub proof fn law_told_errors_speak_for_themselves(error: ContextError, task: Task)
    ensures
        error matches ContextError::Guest(guest) ==> error.message_of(task) == Some(
            guest.message@,
        ),
        error matches ContextError::Codec(codec) ==> error.message_of(task) == Some(
            codec.message_of(task != Task::Receive),
        ),
        error.message_of(task) is None <==> error is Poll || error is Publish,
{
}

/// What is told of a missing, an acknowledged and an overlong message depends on whether the
/// message had begun, where the guest was receiving, and on nothing else.
pub proof fn law_begun_messages_are_told_apart(task: Task)
    ensures
        ({
            let none = |begun: bool| ContextError::NoChain { begun }.message_of(task);
            let acked = |begun: bool| ContextError::AckOnly { begun }.message_of(task);
            &&& none(true) == none(false) <==> task != Task::Receive
            &&& acked(true) == acked(false) <==> task != Task::Receive
            &&& ContextError::TooLong { begun: true }.message_of(task) != ContextError::TooLong {
                begun: false,
            }.message_of(task)
        }),
{
    reveal_strlit("H2G: expected a continuation buffer");
    reveal_strlit("H2G: expected a guest function call buffer");
    reveal_strlit("H2G continuation buffer was ack-only");
    reveal_strlit("H2G: guest function call buffer was ack-only");
    reveal_strlit("H2G buffers exceed the declared payload length");
    reveal_strlit("H2G first buffer exceeds the declared payload length");
    assert("H2G: expected a continuation buffer"@.len()
        != "H2G: expected a guest function call buffer"@.len());
    assert("H2G continuation buffer was ack-only"@.len()
        != "H2G: guest function call buffer was ack-only"@.len());
    assert("H2G buffers exceed the declared payload length"@.len()
        != "H2G first buffer exceeds the declared payload length"@.len());
}

} // verus!
