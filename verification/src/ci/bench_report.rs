//! What a benchmark report covers and how it is titled.

use vstd::prelude::*;
use vstd::seq_lib::*;
use vstd::string::*;

use super::manifest::Host;
use crate::text;
use crate::text::{
    chars_of, contains, number_text, parse_number, rsplit_once, same, same_text, split_once,
    text_of, to_lowercase, trim_end_numbers,
};

verus! {

/// Where results come from, either a criterion directory or CI.
#[derive(Debug, Clone)]
pub enum Source {
    /// A criterion directory.
    Dir(String),
    /// A workflow run.
    Run(u64),
    /// The last run of a pull request.
    PullRequest(u64),
    /// Benchmarks of the default branch taken at or before a commit.
    Commit(String),
    /// Benchmarks of the default branch taken where a pull request branched.
    BaseOf(u64),
    /// Benchmarks a release carries, which outlive the workflow artifacts.
    Release(String),
}

/// A source with its texts as sequences of characters.
pub enum SourceView {
    /// A criterion directory.
    Dir(Seq<char>),
    /// A workflow run.
    Run(u64),
    /// The last run of a pull request.
    PullRequest(u64),
    /// Benchmarks of the default branch taken at or before a commit.
    Commit(Seq<char>),
    /// Benchmarks of the default branch taken where a pull request branched.
    BaseOf(u64),
    /// Benchmarks a release carries.
    Release(Seq<char>),
}

impl View for Source {
    type V = SourceView;

    open spec fn view(&self) -> SourceView {
        match self {
            Source::Dir(dir) => SourceView::Dir(dir@),
            Source::Run(id) => SourceView::Run(*id),
            Source::PullRequest(id) => SourceView::PullRequest(*id),
            Source::Commit(commit) => SourceView::Commit(commit@),
            Source::BaseOf(id) => SourceView::BaseOf(*id),
            Source::Release(tag) => SourceView::Release(tag@),
        }
    }
}

/// What to say of a number that does not read.
pub open spec fn not_a_number(rest: Seq<char>, kind: Seq<char>) -> Seq<char> {
    "`"@ + rest + "` is not a "@ + kind + " number"@
}

/// A source that is named by a number.
pub open spec fn numbered(
    kind: Seq<char>,
    rest: Seq<char>,
    source: spec_fn(u64) -> SourceView,
) -> Result<SourceView, Seq<char>> {
    match text::number_of(rest) {
        Some(id) => Ok(source(id)),
        None => Err(not_a_number(rest, kind)),
    }
}

/// The source that a text names. A text without a known kind before its first colon is a
/// directory.
pub open spec fn source_of(value: Seq<char>) -> Result<SourceView, Seq<char>> {
    match text::split_once_of(value, ':') {
        Some((kind, rest)) => if kind == "commit"@ {
            Ok(SourceView::Commit(rest))
        } else if kind == "release"@ {
            Ok(SourceView::Release(rest))
        } else if kind == "run"@ {
            numbered(kind, rest, |id: u64| SourceView::Run(id))
        } else if kind == "pr"@ {
            numbered(kind, rest, |id: u64| SourceView::PullRequest(id))
        } else if kind == "base-of"@ {
            numbered(kind, rest, |id: u64| SourceView::BaseOf(id))
        } else {
            Ok(SourceView::Dir(value))
        },
        None => Ok(SourceView::Dir(value)),
    }
}

/// Whether characters are those of a text.
fn is_text(chars: &[char], word: &str) -> (equal: bool)
    ensures
        equal <==> chars@ == word@,
{
    let word_chars = chars_of(word);
    same(chars, word_chars.as_slice())
}

/// Read a number, or say of which kind it should have been.
fn numbered_id(kind: &[char], rest: &[char]) -> (id: Result<u64, String>)
    ensures
        match id {
            Ok(id) => text::number_of(rest@) == Some(id),
            Err(message) => text::number_of(rest@) is None && message@ == not_a_number(
                rest@,
                kind@,
            ),
        },
{
    match parse_number(rest) {
        Some(id) => Ok(id),
        None => {
            let mut message = "`".to_owned();
            let rest_text = text_of(rest);
            let kind_text = text_of(kind);
            message.append(rest_text.as_str());
            message.append("` is not a ");
            message.append(kind_text.as_str());
            message.append(" number");
            Err(message)
        },
    }
}

impl Source {
    /// Read the source that a text names.
    pub fn from_str(value: &str) -> (source: Result<Source, String>)
        ensures
            match source {
                Ok(source) => source_of(value@) == Ok::<SourceView, Seq<char>>(source@),
                Err(message) => source_of(value@) == Err::<SourceView, Seq<char>>(message@),
            },
    {
        let chars = chars_of(value);
        proof {
            reveal_strlit("commit");
            reveal_strlit("release");
            reveal_strlit("run");
            reveal_strlit("pr");
            reveal_strlit("base-of");
        }
        match split_once(chars.as_slice(), ':') {
            Some((kind, rest)) => {
                if is_text(kind, "commit") {
                    Ok(Source::Commit(text_of(rest)))
                } else if is_text(kind, "release") {
                    Ok(Source::Release(text_of(rest)))
                } else if is_text(kind, "run") {
                    match numbered_id(kind, rest) {
                        Ok(id) => Ok(Source::Run(id)),
                        Err(message) => Err(message),
                    }
                } else if is_text(kind, "pr") {
                    match numbered_id(kind, rest) {
                        Ok(id) => Ok(Source::PullRequest(id)),
                        Err(message) => Err(message),
                    }
                } else if is_text(kind, "base-of") {
                    match numbered_id(kind, rest) {
                        Ok(id) => Ok(Source::BaseOf(id)),
                        Err(message) => Err(message),
                    }
                } else {
                    Ok(Source::Dir(value.to_owned()))
                }
            },
            None => Ok(Source::Dir(value.to_owned())),
        }
    }
}

/// How to ask for a run again.
pub open spec fn pinned_run_of(run: u64) -> Seq<char> {
    "run:"@ + text::number_text_of(run as nat)
}

/// How to ask for a release again.
pub open spec fn pinned_release_of(tag: Seq<char>) -> Seq<char> {
    "release:"@ + tag
}

/// How to ask for a run again.
pub fn pinned_run(run: u64) -> (pinned: String)
    ensures
        pinned@ == pinned_run_of(run),
{
    let number = number_text(run);
    "run:".to_owned().concat(number.as_str())
}

/// How to ask for a release again.
pub fn pinned_release(tag: &str) -> (pinned: String)
    ensures
        pinned@ == pinned_release_of(tag@),
{
    "release:".to_owned().concat(tag)
}

proof fn lemma_split_after(kind: Seq<char>, rest: Seq<char>, c: char)
    requires
        !kind.contains(c),
    ensures
        text::split_once_of(kind.push(c) + rest, c) == Some((kind, rest)),
{
    let s = kind.push(c) + rest;
    s.index_of_first_ensures(c);
    assert(s[kind.len() as int] == c);
    let i = s.index_of_first(c)->0;
    if i < kind.len() {
        assert(kind[i] == c);
    }
    assert(s.take(i) =~= kind);
    assert(s.skip(i + 1) =~= rest);
}

/// What a report pins reads back as the source that answered: the run, the release, or the
/// directory.
pub proof fn law_pinned_sources_read_back(run: u64, tag: Seq<char>, value: Seq<char>)
    ensures
        source_of(pinned_run_of(run)) == Ok::<SourceView, Seq<char>>(SourceView::Run(run)),
        source_of(pinned_release_of(tag)) == Ok::<SourceView, Seq<char>>(SourceView::Release(tag)),
        source_of(value) matches Ok(SourceView::Dir(dir)) ==> source_of(dir) == Ok::<
            SourceView,
            Seq<char>,
        >(SourceView::Dir(dir)),
{
    reveal_strlit("run");
    reveal_strlit("run:");
    reveal_strlit("release");
    reveal_strlit("release:");
    reveal_strlit("commit");
    reveal_strlit("pr");
    reveal_strlit("base-of");
    assert("run:"@ =~= "run"@.push(':'));
    assert("release:"@ =~= "release"@.push(':'));
    lemma_split_after("run"@, text::number_text_of(run as nat), ':');
    lemma_split_after("release"@, tag, ':');
    text::law_number_round_trip(run);
    assert("run"@.len() == 3 && "release"@.len() == 7 && "commit"@.len() == 6);
}

/// What distinguishes one set of benchmark results from another.
pub struct Identity {
    /// The operating system.
    pub os: String,
    /// `amd` or `intel`.
    pub vendor: String,
    /// The hypervisor, when it is known.
    pub hypervisor: Option<String>,
}

/// An identity with its texts as sequences of characters.
pub struct IdentityView {
    /// The operating system.
    pub os: Seq<char>,
    /// `amd` or `intel`.
    pub vendor: Seq<char>,
    /// The hypervisor, when it is known.
    pub hypervisor: Option<Seq<char>>,
}

impl View for Identity {
    type V = IdentityView;

    open spec fn view(&self) -> IdentityView {
        IdentityView {
            os: self.os@,
            vendor: self.vendor@,
            hypervisor: match self.hypervisor {
                Some(name) => Some(name@),
                None => None,
            },
        }
    }
}

/// The name of a hypervisor: `whp` on windows, elsewhere the name without its version.
pub open spec fn canonical_hypervisor_of(os: Seq<char>, name: Seq<char>) -> Seq<char> {
    if os == "windows"@ {
        "whp"@
    } else {
        text::trim_end_of(name, |c: char| text::is_number(c))
    }
}

/// Windows runs on whp alone, so its artifacts are named after the runner image instead.
/// Elsewhere the name carries a version, `mshv3` for `mshv`.
pub fn canonical_hypervisor(os: &str, name: &str) -> (canonical: String)
    ensures
        canonical@ == canonical_hypervisor_of(os@, name@),
{
    if same_text(os, "windows") {
        "whp".to_owned()
    } else {
        let chars = chars_of(name);
        text_of(trim_end_numbers(chars.as_slice()))
    }
}

/// The three parts of an artifact name: before the first underscore, between, and after the
/// last.
pub open spec fn label_parts(label: Seq<char>) -> Option<(Seq<char>, Seq<char>, Seq<char>)> {
    match text::split_once_of(label, '_') {
        Some((os, rest)) => match text::rsplit_once_of(rest, '_') {
            Some((hypervisor, vendor)) => Some((os, hypervisor, vendor)),
            None => None,
        },
        None => None,
    }
}

/// The identity that an artifact name tells.
pub open spec fn label_identity(label: Seq<char>) -> Option<IdentityView> {
    match label_parts(label) {
        Some((os, hypervisor, vendor)) => Some(
            IdentityView {
                os: text::lower_case(os),
                vendor: text::lower_case(vendor),
                hypervisor: Some(canonical_hypervisor_of(text::lower_case(os), hypervisor)),
            },
        ),
        None => None,
    }
}

/// The vendor that a processor names itself after.
pub open spec fn known_vendor(name: Seq<char>) -> Option<Seq<char>> {
    if text::holds(name, "AMD"@) {
        Some("amd"@)
    } else if text::holds(name, "Intel"@) {
        Some("intel"@)
    } else {
        None
    }
}

/// The identity that a run recorded.
pub open spec fn host_identity(host: Host) -> Option<IdentityView> {
    match host.cpu_vendor {
        Some(name) => match known_vendor(name@) {
            Some(vendor) => Some(
                IdentityView {
                    os: host.os@,
                    vendor,
                    hypervisor: match host.hypervisor {
                        Some(hypervisor) => Some(canonical_hypervisor_of(host.os@, hypervisor@)),
                        None => None,
                    },
                },
            ),
            None => None,
        },
        None => None,
    }
}

/// The view of an identity that may be unknown.
pub open spec fn identity_view(identity: Option<Identity>) -> Option<IdentityView> {
    match identity {
        Some(identity) => Some(identity@),
        None => None,
    }
}

/// Whether two identities could be the same machine: the systems and vendors agree, and so do
/// the hypervisors where both are known.
pub open spec fn could_be(a: IdentityView, b: IdentityView) -> bool {
    &&& a.os == b.os
    &&& a.vendor == b.vendor
    &&& match (a.hypervisor, b.hypervisor) {
        (Some(ours), Some(theirs)) => ours == theirs,
        _ => true,
    }
}

impl Identity {
    /// Read from the name CI gives an artifact, `Linux_kvm_amd` and so on.
    pub fn from_label(label: &str) -> (identity: Option<Identity>)
        ensures
            identity_view(identity) == label_identity(label@),
    {
        let chars = chars_of(label);
        match split_once(chars.as_slice(), '_') {
            Some((os, rest)) => match rsplit_once(rest, '_') {
                Some((hypervisor, vendor)) => {
                    let os_text = text_of(os);
                    let hypervisor_text = text_of(hypervisor);
                    let vendor_text = text_of(vendor);
                    let os = to_lowercase(os_text.as_str());
                    Some(
                        Identity {
                            hypervisor: Some(
                                canonical_hypervisor(os.as_str(), hypervisor_text.as_str()),
                            ),
                            os,
                            vendor: to_lowercase(vendor_text.as_str()),
                        },
                    )
                },
                None => None,
            },
            None => None,
        }
    }

    /// Read from what a run recorded about the machine it ran on.
    pub fn from_host(host: &Host) -> (identity: Option<Identity>)
        ensures
            identity_view(identity) == host_identity(*host),
    {
        let name = match &host.cpu_vendor {
            Some(name) => chars_of(name.as_str()),
            None => return None,
        };
        let amd = chars_of("AMD");
        let intel = chars_of("Intel");
        let vendor = if contains(name.as_slice(), amd.as_slice()) {
            "amd".to_owned()
        } else if contains(name.as_slice(), intel.as_slice()) {
            "intel".to_owned()
        } else {
            return None;
        };
        Some(
            Identity {
                os: host.os.clone(),
                vendor,
                hypervisor: match &host.hypervisor {
                    Some(hypervisor) => Some(
                        canonical_hypervisor(host.os.as_str(), hypervisor.as_str()),
                    ),
                    None => None,
                },
            },
        )
    }

    /// Whether both could be the same machine. What one of them does not say cannot contradict
    /// the other.
    pub fn matches(&self, other: &Identity) -> (fits: bool)
        ensures
            fits == could_be(self@, other@),
    {
        if !same_text(self.os.as_str(), other.os.as_str()) {
            return false;
        }
        if !same_text(self.vendor.as_str(), other.vendor.as_str()) {
            return false;
        }
        match (&self.hypervisor, &other.hypervisor) {
            (Some(ours), Some(theirs)) => same_text(ours.as_str(), theirs.as_str()),
            _ => true,
        }
    }
}

/// Matching does not depend on which side is asked, and every identity matches itself.
pub proof fn law_matching_is_symmetric(a: IdentityView, b: IdentityView)
    ensures
        could_be(a, b) == could_be(b, a),
        could_be(a, a),
{
}

/// Results to report, identified by the host that produced them.
pub struct Input {
    /// The configuration, as its artifact names it.
    pub label: Option<String>,
    /// Where the results are.
    pub dir: String,
    /// The machine that took them.
    pub host: Option<Identity>,
}

/// A set of results and the commit they were taken at.
pub struct Origin {
    /// The commit that was measured.
    pub commit: Option<String>,
    /// How to ask for these same results again, whatever was asked for here.
    pub pinned: String,
    /// The results.
    pub inputs: Vec<Input>,
}

/// The source to compare with: the one asked for, or where a pull request branched.
pub open spec fn baseline_source_of(
    baseline: Option<SourceView>,
    candidate: SourceView,
) -> Option<SourceView> {
    match baseline {
        Some(source) => Some(source),
        None => match candidate {
            SourceView::PullRequest(id) => Some(SourceView::BaseOf(id)),
            _ => None,
        },
    }
}

/// The view of a source that may be absent.
pub open spec fn source_view(source: Option<Source>) -> Option<SourceView> {
    match source {
        Some(source) => Some(source@),
        None => None,
    }
}

/// The source to compare with. Nothing within a pull request's results says what they mean,
/// so they are measured against the branch point they were built from.
pub fn baseline_source(baseline: Option<Source>, candidate: &Source) -> (source: Option<Source>)
    ensures
        source_view(source) == baseline_source_of(source_view(baseline), candidate@),
{
    match baseline {
        Some(source) => Some(source),
        None => match candidate {
            Source::PullRequest(id) => Some(Source::BaseOf(*id)),
            _ => None,
        },
    }
}

/// A baseline that was asked for is the one that is compared with, whatever the candidate is.
pub proof fn law_baseline_that_was_asked_for_is_kept(source: SourceView, candidate: SourceView)
    ensures
        baseline_source_of(Some(source), candidate) == Some(source),
{
}

/// With no baseline asked for, a pull request is compared with where it branched, and
/// results that name no branch point with nothing.
pub proof fn law_only_a_pull_request_brings_its_own_baseline(candidate: SourceView)
    ensures
        match baseline_source_of(None, candidate) {
            Some(source) => match source {
                SourceView::BaseOf(id) => candidate == SourceView::PullRequest(id),
                _ => false,
            },
            None => candidate !is PullRequest,
        },
{
}

/// The items whose flag is set.
pub open spec fn kept<T>(items: Seq<T>, keep: Seq<bool>) -> Seq<T>
    decreases items.len(),
{
    if items.len() == 0 {
        Seq::empty()
    } else if keep[items.len() - 1] {
        kept(items.drop_last(), keep).push(items.last())
    } else {
        kept(items.drop_last(), keep)
    }
}

/// The commit that inputs were measured at, if any is left.
pub open spec fn commit_of<T>(commit: Option<T>, left: nat) -> Option<T> {
    if left == 0 {
        None
    } else {
        commit
    }
}

impl Origin {
    /// No results at all.
    pub fn empty() -> (origin: Origin)
        ensures
            origin.commit is None,
            origin.pinned@.len() == 0,
            origin.inputs@.len() == 0,
    {
        proof {
            reveal_strlit("");
        }
        Origin { commit: None, pinned: "".to_owned(), inputs: Vec::new() }
    }

    /// Keep the inputs that have results. Without any, nothing was measured either.
    pub fn settle(self, has_results: &Vec<bool>) -> (settled: Origin)
        requires
            has_results@.len() == self.inputs@.len(),
        ensures
            settled.inputs@ == kept(self.inputs@, has_results@),
            settled.pinned == self.pinned,
            settled.commit == commit_of(self.commit, settled.inputs@.len()),
            settled.commit == if settled.inputs@.len() == 0 {
                None
            } else {
                self.commit
            },
    {
        let ghost all = self.inputs@;
        let Origin { commit, pinned, inputs } = self;
        let mut left: Vec<Input> = Vec::new();
        let size: usize = has_results.len();
        let mut i: usize = 0;
        proof {
            assert(all.take(0) =~= Seq::<Input>::empty());
        }
        for input in it: inputs
            invariant
                it.seq() == all,
                i == it.index(),
                size == all.len(),
                has_results@.len() == all.len(),
                left@ == kept(all.take(i as int), has_results@),
        {
            proof {
                assert(all.take(i + 1).drop_last() =~= all.take(i as int));
                assert(all.take(i + 1).last() == input);
                assert(i < has_results@.len());
            }
            if has_results[i] {
                left.push(input);
            }
            i += 1;
        }
        proof {
            assert(all.take(all.len() as int) =~= all);
        }
        let commit = if left.len() == 0 {
            None
        } else {
            commit
        };
        Origin { commit, pinned, inputs: left }
    }
}

/// What to compare some results with.
pub enum Comparison {
    /// The baseline at an index.
    Against(usize),
    /// Nothing, and there is nothing to say about it.
    Alone,
    /// Nothing, because several baselines fit the named results.
    Several(String),
    /// Nothing, because no baseline fits the named results.
    Unmatched(String),
}

/// Whether a baseline fits a host.
pub open spec fn fits(baselines: Seq<Input>, i: int, host: Identity) -> bool {
    match baselines[i].host {
        Some(other) => could_be(host@, other@),
        None => false,
    }
}

/// Exactly one baseline fits a host.
pub open spec fn only_fit(baselines: Seq<Input>, i: int, host: Identity) -> bool {
    &&& 0 <= i < baselines.len()
    &&& fits(baselines, i, host)
    &&& forall|j: int| 0 <= j < baselines.len() && j != i ==> !#[trigger] fits(baselines, j, host)
}

/// Two baselines fit a host.
pub open spec fn several_fit(baselines: Seq<Input>, host: Identity) -> bool {
    exists|i: int, j: int|
        0 <= i < j < baselines.len() && #[trigger] fits(baselines, i, host) && #[trigger] fits(
            baselines,
            j,
            host,
        )
}

/// What a candidate is called.
pub open spec fn called(candidate: Input) -> Seq<char> {
    match candidate.label {
        Some(label) => describe_of(label@),
        None => "these results"@,
    }
}

/// Whether a lone baseline stands in for whatever it is compared against.
pub open spec fn stands_in(baselines: Seq<Input>, candidate: Input) -> bool {
    baselines.len() == 1 && (baselines[0].host is None || candidate.host is None)
}

/// The baseline to compare a candidate against.
pub fn baseline_for(baselines: &[Input], candidate: &Input) -> (comparison: Comparison)
    ensures
        match comparison {
            Comparison::Against(i) => if stands_in(baselines@, *candidate) {
                i == 0
            } else {
                candidate.host is Some && only_fit(baselines@, i as int, candidate.host->0)
            },
            Comparison::Alone => {
                ||| baselines@.len() == 0
                ||| candidate.host is None && !stands_in(baselines@, *candidate)
            },
            Comparison::Several(what) => {
                &&& !stands_in(baselines@, *candidate)
                &&& candidate.host is Some
                &&& several_fit(baselines@, candidate.host->0)
                &&& what@ == called(*candidate)
            },
            Comparison::Unmatched(what) => {
                &&& baselines@.len() > 0
                &&& !stands_in(baselines@, *candidate)
                &&& candidate.host is Some
                &&& forall|j: int|
                    0 <= j < baselines@.len() ==> !#[trigger] fits(
                        baselines@,
                        j,
                        candidate.host->0,
                    )
                &&& what@ == called(*candidate)
            },
        },
{
    if baselines.len() == 0 {
        return Comparison::Alone;
    }
    if baselines.len() == 1 && (baselines[0].host.is_none() || candidate.host.is_none()) {
        return Comparison::Against(0);
    }
    let host = match &candidate.host {
        Some(host) => host,
        None => return Comparison::Alone,
    };
    let mut found: Option<usize> = None;
    let mut i: usize = 0;
    while i < baselines.len()
        invariant
            i <= baselines@.len(),
            candidate.host == Some(*host),
            baselines@.len() > 0,
            !stands_in(baselines@, *candidate),
            match found {
                Some(k) => {
                    &&& k < i
                    &&& fits(baselines@, k as int, *host)
                    &&& forall|j: int|
                        0 <= j < i && j != k ==> !#[trigger] fits(baselines@, j, *host)
                },
                None => forall|j: int| 0 <= j < i ==> !#[trigger] fits(baselines@, j, *host),
            },
        decreases baselines@.len() - i,
    {
        let fit = match &baselines[i].host {
            Some(other) => host.matches(other),
            None => false,
        };
        assert(fit == fits(baselines@, i as int, *host));
        if fit {
            match found {
                Some(k) => {
                    proof {
                        assert(fits(baselines@, k as int, *host));
                        assert(several_fit(baselines@, *host));
                    }
                    return Comparison::Several(name_of(candidate));
                },
                None => {
                    found = Some(i);
                },
            }
        }
        i += 1;
    }
    match found {
        Some(k) => Comparison::Against(k),
        None => Comparison::Unmatched(name_of(candidate)),
    }
}

/// What a candidate is called.
fn name_of(candidate: &Input) -> (name: String)
    ensures
        name@ == called(*candidate),
{
    match &candidate.label {
        Some(label) => describe(label.as_str()),
        None => "these results".to_owned(),
    }
}

/// A configuration the way the workflow that measured it names it.
pub open spec fn describe_of(label: Seq<char>) -> Seq<char> {
    match label_parts(label) {
        Some((os, hypervisor, vendor)) => hypervisor + " / "@ + vendor + " ("@ + os + ")"@,
        None => label,
    }
}

/// Name a configuration the way the workflow that measured it does, turning `Linux_kvm_amd`
/// into `kvm / amd (Linux)`.
pub fn describe(label: &str) -> (described: String)
    ensures
        described@ == describe_of(label@),
{
    let chars = chars_of(label);
    match split_once(chars.as_slice(), '_') {
        Some((os, rest)) => match rsplit_once(rest, '_') {
            Some((hypervisor, vendor)) => {
                let vendor_text = text_of(vendor);
                let os_text = text_of(os);
                let mut described = text_of(hypervisor);
                described.append(" / ");
                described.append(vendor_text.as_str());
                described.append(" (");
                described.append(os_text.as_str());
                described.append(")");
                described
            },
            None => label.to_owned(),
        },
        None => label.to_owned(),
    }
}

/// The name of a report.
pub open spec fn title_of(summary: Option<&str>, label: Option<&str>) -> Option<Seq<char>> {
    match (summary, label) {
        (Some(summary), Some(label)) => Some(summary@ + " "@ + describe_of(label@)),
        (Some(summary), None) => Some(summary@),
        (None, Some(label)) => Some(describe_of(label@)),
        (None, None) => None,
    }
}

/// Name the report after the configuration it covers.
pub fn title(summary: Option<&str>, label: Option<&str>) -> (name: Option<String>)
    ensures
        match name {
            Some(name) => title_of(summary, label) == Some(name@),
            None => title_of(summary, label) is None,
        },
{
    match (summary, label) {
        (Some(summary), Some(label)) => {
            let mut name = summary.to_owned();
            let described = describe(label);
            name.append(" ");
            name.append(described.as_str());
            Some(name)
        },
        (Some(summary), None) => Some(summary.to_owned()),
        (None, Some(label)) => Some(describe(label)),
        (None, None) => None,
    }
}

/// How many bytes a character takes in UTF-8.
pub open spec fn width_of(c: char) -> int {
    let code = c as int;
    if code < 0x80 {
        1
    } else if code < 0x800 {
        2
    } else if code < 0x1_0000 {
        3
    } else {
        4
    }
}

/// The characters at the start of a text that take a number of bytes together.
pub open spec fn first_bytes(s: Seq<char>, count: int) -> Option<Seq<char>>
    decreases s.len(),
{
    if count == 0 {
        Some(Seq::empty())
    } else if s.len() == 0 || width_of(s[0]) > count {
        None
    } else {
        match first_bytes(s.drop_first(), count - width_of(s[0])) {
            Some(rest) => Some(seq![s[0]] + rest),
            None => None,
        }
    }
}

/// How many characters at the start of a text take a number of bytes together.
fn prefix_len(s: &[char], count: u32) -> (len: Option<usize>)
    ensures
        match len {
            Some(len) => len <= s@.len() && first_bytes(s@, count as int) == Some(
                s@.take(len as int),
            ),
            None => first_bytes(s@, count as int) is None,
        },
{
    let mut left: u32 = count;
    let mut i: usize = 0;
    proof {
        assert(s@.skip(0) =~= s@);
        lemma_first_bytes_joined(s@, 0, count as int);
    }
    while left > 0
        invariant
            i <= s@.len(),
            match first_bytes(s@.skip(i as int), left as int) {
                Some(rest) => first_bytes(s@, count as int) == Some(s@.take(i as int) + rest),
                None => first_bytes(s@, count as int) is None,
            },
        decreases left,
    {
        if i >= s.len() {
            return None;
        }
        let c = s[i];
        assert(s@.skip(i as int)[0] == c);
        let width: u32 = if c >= '\u{10000}' {
            4
        } else if c >= '\u{800}' {
            3
        } else if c >= '\u{80}' {
            2
        } else {
            1
        };
        assert(width == width_of(c));
        if width > left {
            return None;
        }
        proof {
            assert(s@.skip(i as int).drop_first() =~= s@.skip(i + 1));
            match first_bytes(s@.skip(i + 1), left - width) {
                Some(rest) => {
                    assert(s@.take(i as int) + (seq![s@[i as int]] + rest) =~= s@.take(i + 1)
                        + rest);
                },
                None => {},
            }
        }
        left -= width;
        i += 1;
    }
    proof {
        assert(s@.take(i as int) + Seq::<char>::empty() =~= s@.take(i as int));
    }
    Some(i)
}

proof fn lemma_first_bytes_joined(s: Seq<char>, i: int, count: int)
    requires
        i == 0,
    ensures
        first_bytes(s, count) matches Some(rest) ==> s.take(i) + rest == rest,
{
    if first_bytes(s, count) is Some {
        assert(s.take(0) + first_bytes(s, count)->0 =~= first_bytes(s, count)->0);
    }
}

/// A commit id cut to its first twelve bytes, where those end at a character.
pub open spec fn short_of(sha: Seq<char>) -> Seq<char> {
    match first_bytes(sha, 12) {
        Some(short) => short,
        None => sha,
    }
}

/// A link to a commit.
pub open spec fn link_of(repo: Seq<char>, sha: Seq<char>) -> Seq<char> {
    "[`"@ + short_of(sha) + "`](https://github.com/"@ + repo + "/commit/"@ + sha + ")"@
}

/// A link to a commit.
fn link(repo: &str, sha: &str) -> (linked: String)
    ensures
        linked@ == link_of(repo@, sha@),
{
    let chars = chars_of(sha);
    let short = match prefix_len(chars.as_slice(), 12) {
        Some(len) => {
            proof {
                assert(chars@.subrange(0, len as int) =~= chars@.take(len as int));
            }
            text_of(vstd::slice::slice_subrange(chars.as_slice(), 0, len))
        },
        None => sha.to_owned(),
    };
    let mut linked = "[`".to_owned();
    linked.append(short.as_str());
    linked.append("`](https://github.com/");
    linked.append(repo);
    linked.append("/commit/");
    linked.append(sha);
    linked.append(")");
    linked
}

/// Which commits a report covers.
pub open spec fn measured_of(
    repo: Seq<char>,
    candidate: Option<String>,
    baseline: Option<String>,
) -> Option<Seq<char>> {
    match candidate {
        Some(commit) => {
            let first = "Measured commit: "@ + link_of(repo, commit@);
            match baseline {
                Some(base) => Some(first + "\nBaseline commit: "@ + link_of(repo, base@) + "\n\n"@),
                None => Some(first + "\n\n"@),
            }
        },
        None => None,
    }
}

/// Say which commits the report covers, so a reader can tell what they are looking at without
/// knowing how it was asked for.
pub fn measured(repo: &str, candidate: &Origin, baseline: &Origin) -> (lines: Option<String>)
    ensures
        match lines {
            Some(lines) => measured_of(repo@, candidate.commit, baseline.commit) == Some(lines@),
            None => measured_of(repo@, candidate.commit, baseline.commit) is None,
        },
{
    match &candidate.commit {
        Some(commit) => {
            let mut lines = "Measured commit: ".to_owned();
            let linked = link(repo, commit.as_str());
            lines.append(linked.as_str());
            match &baseline.commit {
                Some(base) => {
                    let base_linked = link(repo, base.as_str());
                    lines.append("\nBaseline commit: ");
                    lines.append(base_linked.as_str());
                },
                None => {},
            }
            lines.append("\n\n");
            Some(lines)
        },
        None => None,
    }
}

/// The command that asks for a report again.
pub open spec fn command_of(
    candidate: Seq<char>,
    baseline: Option<Seq<char>>,
    config_file: Option<&str>,
) -> Seq<char> {
    "cargo ci bench-report --candidate "@ + candidate + match baseline {
        Some(pinned) => " --baseline "@ + pinned,
        None => Seq::empty(),
    } + match config_file {
        Some(config) => " --config-file "@ + config@,
        None => Seq::empty(),
    }
}

/// What a baseline pins, where it has results.
pub open spec fn pinned_baseline(baseline: Origin) -> Option<Seq<char>> {
    if baseline.inputs@.len() == 0 {
        None
    } else {
        Some(baseline.pinned@)
    }
}

/// The command that reports these same results again.
///
/// What was asked for moves: the last run of a pull request is whichever ran most recently,
/// and where it branched changes when it is rebased. Naming the runs that answered holds the
/// report still.
pub fn reproduce(
    config_file: Option<&str>,
    candidate: &Origin,
    baseline: &Origin,
) -> (line: String)
    ensures
        line@ == "\n<sub>Reported by `"@ + command_of(
            candidate.pinned@,
            pinned_baseline(*baseline),
            config_file,
        ) + "`.</sub>\n"@,
{
    let mut command = "cargo ci bench-report --candidate ".to_owned();
    command.append(candidate.pinned.as_str());
    let ghost asked = command@;
    if baseline.inputs.len() > 0 {
        command.append(" --baseline ");
        command.append(baseline.pinned.as_str());
    }
    proof {
        assert(command@ =~= asked + match pinned_baseline(*baseline) {
            Some(pinned) => " --baseline "@ + pinned,
            None => Seq::empty(),
        });
    }
    let ghost compared = command@;
    if let Some(config) = config_file {
        command.append(" --config-file ");
        command.append(config);
    }
    proof {
        assert(command@ =~= compared + match config_file {
            Some(config) => " --config-file "@ + config@,
            None => Seq::empty(),
        });
    }
    let mut line = "\n<sub>Reported by `".to_owned();
    line.append(command.as_str());
    line.append("`.</sub>\n");
    line
}

/// A commit was measured while any input is left, and not without.
pub proof fn law_nothing_was_measured_without_inputs<T>(commit: Option<T>, left: nat)
    ensures
        commit_of(commit, 0) is None,
        left > 0 ==> commit_of(commit, left) == commit,
{
}

/// A baseline is pinned exactly where it has results, and as it was.
pub proof fn law_baseline_with_results_is_pinned(baseline: Origin)
    ensures
        baseline.inputs@.len() > 0 ==> pinned_baseline(baseline) == Some(baseline.pinned@),
        baseline.inputs@.len() == 0 ==> pinned_baseline(baseline) is None,
{
}

/// A candidate is called as its configuration is described, and in words of its own where it
/// has none.
pub proof fn law_candidate_is_called_as_it_is_described(candidate: Input)
    ensures
        candidate.label matches Some(label) ==> called(candidate) == describe_of(label@),
        candidate.label is None ==> called(candidate) == "these results"@,
{
}

} // verus!
