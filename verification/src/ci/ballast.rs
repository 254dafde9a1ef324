//! The helper that holds a sandbox alive for the duration of a benchmark run.

use serde_json::Value;
use vstd::prelude::*;

use crate::text;
use crate::text::{chars_of, same, same_text, trim};

verus! {

/// A line says that the helper's sandbox is live.
pub open spec fn says_ready(line: Seq<char>) -> bool {
    text::trim_of(line) == "ballast ready"@
}

/// Whether a line says that the helper's sandbox is live.
pub fn is_ready(line: &str) -> (ready: bool)
    ensures
        ready <==> says_ready(line@),
{
    let chars = chars_of(line);
    let expected = chars_of("ballast ready");
    same(trim(chars.as_slice()), expected.as_slice())
}

#[verifier::external_type_specification]
#[verifier::external_body]
pub struct ExValue(Value);

/// The JSON value of a document, if it is one.
pub uninterp spec fn parsed(document: Seq<char>) -> Option<Value>;

/// `serde_json::from_str`: the value of a document, or nothing where it does not parse.
#[verifier::external_body]
fn parse(document: &str) -> (value: Option<Value>)
    ensures
        value == parsed(document@),
{
    serde_json::from_str::<Value>(document).ok()
}

/// The value that a JSON value holds under a key, or the null value.
pub uninterp spec fn member_of(value: Value, key: Seq<char>) -> Value;

/// `serde_json::Value::index`: the value under a key.
#[verifier::external_body]
fn member<'a>(value: &'a Value, key: &str) -> (held: &'a Value)
    ensures
        *held == member_of(*value, key@),
{
    &value[key]
}

/// The text that a JSON value is, if it is one.
pub uninterp spec fn text_in(value: Value) -> Option<Seq<char>>;

/// `serde_json::Value::as_str`: the text of a value, or nothing where it is no text.
#[verifier::external_body]
fn text_of(value: &Value) -> (text: Option<String>)
    ensures
        text_view(text) == text_in(*value),
{
    value.as_str().map(str::to_string)
}

/// The executable that a build message reports for the helper.
pub open spec fn reported(
    reason: Option<Seq<char>>,
    target: Option<Seq<char>>,
    executable: Option<Seq<char>>,
) -> Option<Seq<char>> {
    if reason == Some("compiler-artifact"@) && target == Some("ballast"@) {
        executable
    } else {
        None
    }
}

/// The view of a text that may be absent.
pub open spec fn text_view(s: Option<String>) -> Option<Seq<char>> {
    match s {
        Some(s) => Some(s@),
        None => None,
    }
}

/// Whether a text is present and equal to another.
fn is(s: &Option<String>, word: &str) -> (equal: bool)
    ensures
        equal <==> text_view(*s) == Some(word@),
{
    match s {
        Some(s) => same_text(s.as_str(), word),
        None => false,
    }
}

/// The executable that a build message with these fields reports for the helper.
pub fn reported_executable(
    reason: Option<String>,
    target: Option<String>,
    executable: Option<String>,
) -> (found: Option<String>)
    ensures
        text_view(found) == reported(text_view(reason), text_view(target), text_view(executable)),
{
    if is(&reason, "compiler-artifact") && is(&target, "ballast") {
        executable
    } else {
        None
    }
}

/// The executable that a line of build messages reports for the helper.
pub open spec fn line_executable(line: Seq<char>) -> Option<Seq<char>> {
    match parsed(line) {
        None => None,
        Some(message) => reported(
            text_in(member_of(message, "reason"@)),
            text_in(member_of(member_of(message, "target"@), "name"@)),
            text_in(member_of(message, "executable"@)),
        ),
    }
}

/// The executable that a line of build messages reports for the helper.
fn executable_in(line: &str) -> (found: Option<String>)
    ensures
        text_view(found) == line_executable(line@),
{
    match parse(line) {
        Some(message) => {
            let reason = text_of(member(&message, "reason"));
            let target = text_of(member(member(&message, "target"), "name"));
            let executable = text_of(member(&message, "executable"));
            reported_executable(reason, target, executable)
        },
        None => None,
    }
}

/// The executable that the first of some lines reports for the helper.
pub open spec fn first_executable(lines: Seq<Seq<char>>) -> Option<Seq<char>>
    decreases lines.len(),
{
    if lines.len() == 0 {
        None
    } else {
        match line_executable(lines[0]) {
            Some(executable) => Some(executable),
            None => first_executable(lines.drop_first()),
        }
    }
}

/// The executable that build messages, one to a line, report for the helper.
pub fn find_executable(lines: &Vec<String>) -> (found: Option<String>)
    ensures
        text_view(found) == first_executable(text::views(lines@)),
{
    let ghost texts = text::views(lines@);
    let mut i: usize = 0;
    proof {
        assert(texts.skip(0) =~= texts);
    }
    while i < lines.len()
        invariant
            i <= lines@.len(),
            texts == text::views(lines@),
            first_executable(texts.skip(i as int)) == first_executable(texts),
        decreases lines@.len() - i,
    {
        let line = lines[i].as_str();
        proof {
            assert(texts.skip(i as int)[0] == line@);
            assert(texts.skip(i as int).drop_first() =~= texts.skip(i + 1));
        }
        let found = executable_in(line);
        if found.is_some() {
            return found;
        }
        i += 1;
    }
    None
}

/// The helper is ready where it says so, whatever white space is around the words.
pub proof fn law_ready_line_says_so(line: Seq<char>)
    ensures
        says_ready("ballast ready"@),
        says_ready(line) <==> text::trim_of(line) == "ballast ready"@,
        says_ready(line) <==> says_ready(text::trim_of(line)),
{
    reveal_strlit("ballast ready");
    text::law_text_without_space_around_it_is_kept("ballast ready"@);
    text::law_trimmed_text_has_no_space_around_it(line);
    text::law_text_without_space_around_it_is_kept(text::trim_of(line));
}

} // verus!
