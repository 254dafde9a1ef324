//! A record of what a benchmark run measured, and on what.

use vstd::prelude::*;
use vstd::seq_lib::*;

use super::names;
use super::names::{lines, sort_names};
use crate::text;
use crate::text::{chars_of, rsplit_once, same, split_once, text_of, trim};

verus! {

/// The machine that a run was taken on.
pub struct Host {
    /// The operating system.
    pub os: String,
    /// The processor architecture.
    pub arch: String,
    /// How many logical processors there are.
    pub logical_cpus: Option<usize>,
    /// What the processor calls its vendor.
    pub cpu_vendor: Option<String>,
    /// What the processor calls itself.
    pub cpu_model: Option<String>,
    /// The hypervisor that the benchmarks ran under.
    pub hypervisor: Option<String>,
}

/// Written alongside the criterion results, so a run can be interpreted without the benchmark
/// binaries that produced it.
pub struct Manifest {
    /// Seconds since the Unix epoch.
    pub timestamp: u64,
    /// The machine.
    pub host: Host,
    /// What the run covered.
    pub benchmarks: Vec<String>,
}

impl Manifest {
    /// Record benchmarks as the contents of a run, in order.
    pub fn new(timestamp: u64, host: Host, benchmarks: Vec<String>) -> (manifest: Manifest)
        ensures
            manifest.timestamp == timestamp,
            manifest.host == host,
            names::in_order(text::views(manifest.benchmarks@)),
            text::views(manifest.benchmarks@).to_multiset() == text::views(
                benchmarks@,
            ).to_multiset(),
    {
        Manifest { timestamp, host, benchmarks: sort_names(benchmarks) }
    }
}

/// The value that a line gives a key, both without white space around them.
pub open spec fn line_value(line: Seq<char>, key: Seq<char>) -> Option<Seq<char>> {
    match text::split_once_of(line, ':') {
        Some((name, value)) => if text::trim_of(name) == key {
            Some(text::trim_of(value))
        } else {
            None
        },
        None => None,
    }
}

/// The value that the first line with a key gives it.
pub open spec fn field_of(lines: Seq<Seq<char>>, key: Seq<char>) -> Option<Seq<char>>
    decreases lines.len(),
{
    if lines.len() == 0 {
        None
    } else {
        match line_value(lines[0], key) {
            Some(value) => Some(value),
            None => field_of(lines.drop_first(), key),
        }
    }
}

/// The view of a text that may be absent.
pub open spec fn text_view(s: Option<String>) -> Option<Seq<char>> {
    match s {
        Some(s) => Some(s@),
        None => None,
    }
}

/// The value of a field in a text of `key: value` lines.
fn field(chars: &[char], key: &str) -> (value: Option<String>)
    ensures
        text_view(value) == field_of(names::lines_of(chars@), key@),
{
    let all = lines(chars);
    let key_chars = chars_of(key);
    let ghost texts = names::lines_of(chars@);
    let mut i: usize = 0;
    proof {
        assert(texts.skip(0) =~= texts);
    }
    while i < all.len()
        invariant
            i <= all@.len(),
            texts == names::lines_of(chars@),
            names::slice_texts(all@) == texts,
            key_chars@ == key@,
            field_of(texts.skip(i as int), key@) == field_of(texts, key@),
        decreases all@.len() - i,
    {
        proof {
            assert(texts.skip(i as int)[0] == all@[i as int]@);
            assert(texts.skip(i as int).drop_first() =~= texts.skip(i + 1));
        }
        if let Some((name, value)) = split_once(all[i], ':') {
            if same(trim(name), key_chars.as_slice()) {
                return Some(text_of(trim(value)));
            }
        }
        i += 1;
    }
    None
}

/// The processor's vendor and model, as the system's processor listing tells them.
pub fn cpu_vendor_and_model(cpuinfo: &str) -> (found: (Option<String>, Option<String>))
    ensures
        text_view(found.0) == field_of(names::lines_of(cpuinfo@), "vendor_id"@),
        text_view(found.1) == field_of(names::lines_of(cpuinfo@), "model name"@),
{
    let chars = chars_of(cpuinfo);
    (field(chars.as_slice(), "vendor_id"), field(chars.as_slice(), "model name"))
}

/// The vendor at the end of a processor identifier, after its last comma.
pub open spec fn identifier_vendor_of(identifier: Seq<char>) -> Option<Seq<char>> {
    match text::rsplit_once_of(identifier, ',') {
        Some((_, vendor)) => Some(text::trim_of(vendor)),
        None => None,
    }
}

/// The vendor that a processor identifier ends with, such as `GenuineIntel` in
/// `Intel64 Family 6 Model 154 Stepping 3, GenuineIntel`.
pub fn identifier_vendor(identifier: &str) -> (vendor: Option<String>)
    ensures
        text_view(vendor) == identifier_vendor_of(identifier@),
{
    let chars = chars_of(identifier);
    match rsplit_once(chars.as_slice(), ',') {
        Some((_, vendor)) => Some(text_of(trim(vendor))),
        None => None,
    }
}

} // verus!
