//! Log records of the guest.

use vstd::prelude::*;
use vstd::string::*;

use crate::flatbuffer_wrappers::guest_log_data::{GuestLogData, LogLevel, LogWire};

verus! {

/// Where a record comes from, when that is not known.
pub const UNKNOWN: &'static str = "Unknown";

/// A text of a record, or what stands for it.
pub open spec fn known(text: Option<&str>) -> Seq<char> {
    match text {
        Some(text) => text@,
        None => UNKNOWN@,
    }
}

/// A text of a record, or what stands for it.
fn or_unknown(text: Option<&str>) -> (known_text: String)
    ensures
        known_text@ == known(text),
{
    match text {
        Some(text) => text.to_owned(),
        None => UNKNOWN.to_owned(),
    }
}

/// What the log data of a record hold.
pub open spec fn record_of(
    level: LogLevel,
    message: Seq<char>,
    module: Option<&str>,
    target: Seq<char>,
    file: Option<&str>,
    line: Option<u32>,
) -> LogWire {
    LogWire {
        message,
        source: known(module),
        level: level.wire(),
        caller: target,
        source_file: known(file),
        line: match line {
            Some(line) => line,
            None => 0,
        },
    }
}

/// The log data of a record. A module or file that is not known has a name of its own, and
/// a line that is not known is zero.
pub fn log_record(
    level: LogLevel,
    message: &str,
    module: Option<&str>,
    target: &str,
    file: Option<&str>,
    line: Option<u32>,
) -> (log: GuestLogData)
    ensures
        log.to_wire() == record_of(level, message@, module, target@, file, line),
        log.message@ == message@,
        log.source@ == known(module),
        log.level == level,
        log.caller@ == target@,
        log.source_file@ == known(file),
        log.line == match line {
            Some(line) => line,
            None => 0,
        },
{
    let line: u32 = match line {
        Some(line) => line,
        None => 0,
    };
    GuestLogData::new(
        message.to_owned(),
        or_unknown(module),
        level,
        target.to_owned(),
        or_unknown(file),
        line,
    )
}

/// What a record says is logged as it is: its message, its target as the caller, its module as
/// the source, its file and its line. Of what it does not say, texts are unknown and the line
/// is zero.
pub proof fn law_record_is_logged_as_it_is(
    level: LogLevel,
    message: Seq<char>,
    module: &str,
    target: Seq<char>,
    file: &str,
    line: u32,
)
    ensures
        record_of(level, message, Some(module), target, Some(file), Some(line)) == (LogWire {
            message,
            source: module@,
            level: level.wire(),
            caller: target,
            source_file: file@,
            line,
        }),
        record_of(level, message, None, target, None, None) == (LogWire {
            message,
            source: "Unknown"@,
            level: level.wire(),
            caller: target,
            source_file: "Unknown"@,
            line: 0,
        }),
{
}

} // verus!
