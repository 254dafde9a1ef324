//! Benchmark results taken from a CI run rather than this machine.

use vstd::multiset::*;
use vstd::prelude::*;
use vstd::seq_lib::*;
use vstd::slice::slice_subrange;
use vstd::string::*;

use super::names;
use super::names::{lines, sorted_names};
use crate::text;
use crate::text::{
    chars_of, comes_before, ends_with, same, split_once, starts_with, text_of, trim,
    trim_end_char,
};

verus! {

/// How far back to look for a run that still has its benchmark artifacts. A day of the default
/// branch is one run, so this spans how long they are kept.
pub const RUNS_SEARCHED: u64 = 90;

/// How many times to ask for a listing before taking it at its word.
pub const LISTINGS: u64 = 5;

/// Which repository to read.
pub enum Repository {
    /// One that is named outright.
    Named(String),
    /// The one that a git remote points at.
    Remote(String),
}

/// Which repository to read, either `owner/name` or whichever one a git remote points at,
/// `remote:origin`.
pub fn repository(value: &str) -> (repository: Repository)
    ensures
        match repository {
            Repository::Named(name) => !text::begins(value@, "remote:"@) && name@ == value@,
            Repository::Remote(remote) => text::begins(value@, "remote:"@) && value@ == "remote:"@
                + remote@,
        },
{
    let chars = chars_of(value);
    let prefix = chars_of("remote:");
    if starts_with(chars.as_slice(), prefix.as_slice()) {
        let rest = slice_subrange(chars.as_slice(), prefix.len(), chars.len());
        proof {
            assert(value@ =~= value@.take(prefix@.len() as int) + rest@);
        }
        Repository::Remote(text_of(rest))
    } else {
        Repository::Named(value.to_owned())
    }
}

/// Whether a character separates the parts of a clone url.
pub open spec fn separates(c: char) -> bool {
    c == '/' || c == ':'
}

/// What stands before the last separator, if there is one, and what follows it.
pub open spec fn last_part(s: Seq<char>) -> (Option<Seq<char>>, Seq<char>)
    decreases s.len(),
{
    if s.len() == 0 {
        (None, s)
    } else if separates(s.last()) {
        (Some(s.drop_last()), Seq::empty())
    } else {
        let (front, part) = last_part(s.drop_last());
        (front, part.push(s.last()))
    }
}

/// The part of a clone url that holds the owner and the name.
pub open spec fn url_path(url: Seq<char>) -> Seq<char> {
    let bare = text::trim_end_of(text::trim_of(url), |c: char| c == '/');
    if text::ends(bare, ".git"@) {
        bare.take(bare.len() - ".git"@.len())
    } else {
        bare
    }
}

/// The owner and name that a clone url ends with.
pub open spec fn owner_and_name_of(url: Seq<char>) -> Option<Seq<char>> {
    let (front, name) = last_part(url_path(url));
    match front {
        Some(front) => {
            let owner = last_part(front).1;
            if name.len() == 0 || owner.len() == 0 {
                None
            } else {
                Some(owner + "/"@ + name)
            }
        },
        None => None,
    }
}

proof fn lemma_last_part(s: Seq<char>, i: int)
    requires
        0 <= i <= s.len(),
        forall|k: int| i <= k < s.len() ==> !separates(s[k]),
        i > 0 ==> separates(s[i - 1]),
    ensures
        last_part(s) == if i > 0 {
            (Some(s.take(i - 1)), s.skip(i))
        } else {
            (None, s)
        },
    decreases s.len(),
{
    if s.len() > 0 {
        if i == s.len() {
            assert(s.drop_last() =~= s.take(i - 1));
            assert(s.skip(i) =~= Seq::<char>::empty());
        } else {
            let front = s.drop_last();
            lemma_last_part(front, i);
            if i > 0 {
                assert(front.take(i - 1) =~= s.take(i - 1));
                assert(front.skip(i).push(s.last()) =~= s.skip(i));
            } else {
                assert(front.push(s.last()) =~= s);
            }
        }
    }
}

/// Where the part after the last separator starts.
fn last_part_start(s: &[char]) -> (start: usize)
    ensures
        start <= s@.len(),
        last_part(s@) == if start > 0 {
            (Some(s@.take(start - 1)), s@.skip(start as int))
        } else {
            (None, s@)
        },
{
    let mut i: usize = s.len();
    while i > 0 && s[i - 1] != '/' && s[i - 1] != ':'
        invariant
            i <= s@.len(),
            forall|k: int| i <= k < s@.len() ==> !separates(s@[k]),
        decreases i,
    {
        i -= 1;
    }
    proof {
        lemma_last_part(s@, i as int);
    }
    i
}

/// The owner and name a clone url ends with, however it spells the host.
pub fn owner_and_name(url: &str) -> (found: Option<String>)
    ensures
        match found {
            Some(found) => owner_and_name_of(url@) == Some(found@),
            None => owner_and_name_of(url@) is None,
        },
{
    let chars = chars_of(url);
    let bare = trim_end_char(trim(chars.as_slice()), '/');
    let suffix = chars_of(".git");
    let path = if ends_with(bare, suffix.as_slice()) {
        proof {
            assert(bare@.subrange(0, bare@.len() - suffix@.len()) =~= bare@.take(
                bare@.len() - suffix@.len(),
            ));
        }
        slice_subrange(bare, 0, bare.len() - suffix.len())
    } else {
        bare
    };
    assert(path@ == url_path(url@));
    let start: usize = last_part_start(path);
    if start == 0 {
        return None;
    }
    proof {
        assert(path@.subrange(start as int, path@.len() as int) =~= path@.skip(start as int));
        assert(path@.subrange(0, start - 1) =~= path@.take(start - 1));
    }
    let name = slice_subrange(path, start, path.len());
    let front = slice_subrange(path, 0, start - 1);
    let owner_start: usize = last_part_start(front);
    let owner = slice_subrange(front, owner_start, front.len());
    proof {
        assert(owner@ =~= last_part(front@).1);
    }
    if name.len() == 0 || owner.len() == 0 {
        return None;
    }
    let mut found = text_of(owner);
    let name_text = text_of(name);
    found.append("/");
    found.append(name_text.as_str());
    Some(found)
}

/// An artifact of a run.
pub struct Artifact {
    /// What it is called.
    pub name: String,
    /// Whether its contents are gone.
    pub expired: bool,
}

/// An artifact still holds benchmark results.
pub open spec fn holds_results(artifact: Artifact) -> bool {
    !artifact.expired && text::begins(artifact.name@, "benchmarks_"@)
}

/// A name is that of an artifact that still holds benchmark results.
pub open spec fn names_results(list: Seq<Artifact>, name: Seq<char>) -> bool {
    exists|i: int| 0 <= i < list.len() && holds_results(#[trigger] list[i]) && list[i].name@ == name
}

/// Names of the benchmark artifacts that a listing still holds, in order and each once.
pub fn artifact_names(list: &Vec<Artifact>) -> (kept: Vec<String>)
    ensures
        names::ascending(text::views(kept@)),
        forall|name: Seq<char>| #[trigger]
            text::views(kept@).contains(name) <==> names_results(list@, name),
{
    let prefix = chars_of("benchmarks_");
    let mut found: Vec<String> = Vec::new();
    let mut i: usize = 0;
    while i < list.len()
        invariant
            i <= list@.len(),
            prefix@ == "benchmarks_"@,
            forall|name: Seq<char>| #[trigger]
                text::views(found@).contains(name) <==> names_results(list@.take(i as int), name),
        decreases list@.len() - i,
    {
        let ghost earlier = found@;
        let name = chars_of(list[i].name.as_str());
        let keep = !list[i].expired && starts_with(name.as_slice(), prefix.as_slice());
        if keep {
            found.push(list[i].name.clone());
        }
        proof {
            let now = list@.take(i + 1);
            assert forall|name: Seq<char>| #[trigger]
                text::views(found@).contains(name) <==> names_results(now, name) by {
                let before = list@.take(i as int);
                assert(names_results(now, name) <==> names_results(before, name) || (keep
                    && list@[i as int].name@ == name)) by {
                    if names_results(before, name) {
                        let k = choose|k: int|
                            0 <= k < before.len() && holds_results(#[trigger] before[k])
                                && before[k].name@ == name;
                        assert(now[k] == before[k]);
                    }
                    if keep && list@[i as int].name@ == name {
                        assert(now[i as int] == list@[i as int]);
                    }
                    if names_results(now, name) {
                        let k = choose|k: int|
                            0 <= k < now.len() && holds_results(#[trigger] now[k])
                                && now[k].name@ == name;
                        if k < i {
                            assert(before[k] == now[k]);
                        }
                    }
                }
                if keep {
                    assert(text::views(found@) =~= text::views(earlier).push(
                        list@[i as int].name@,
                    ));
                    names::lemma_push_contains(
                        text::views(earlier),
                        list@[i as int].name@,
                        name,
                    );
                }
            }
        }
        i += 1;
    }
    proof {
        assert(list@.take(list@.len() as int) =~= list@);
    }
    sorted_names(found)
}

/// A name is that of a benchmark archive.
pub open spec fn is_archive(name: Seq<char>) -> bool {
    text::begins(name, "benchmarks_"@) && text::ends(name, ".tar.gz"@)
}

/// Names of the benchmark archives among the lines of a text, in order and each once.
pub fn asset_names(listing: &str) -> (kept: Vec<String>)
    ensures
        names::ascending(text::views(kept@)),
        forall|name: Seq<char>| #[trigger]
            text::views(kept@).contains(name) <==> is_archive(name) && names::lines_of(
                listing@,
            ).contains(name),
{
    let chars = chars_of(listing);
    let all = lines(chars.as_slice());
    let ghost texts = names::lines_of(listing@);
    let prefix = chars_of("benchmarks_");
    let suffix = chars_of(".tar.gz");
    let mut found: Vec<String> = Vec::new();
    let mut i: usize = 0;
    proof {
        assert(texts.take(0) =~= Seq::<Seq<char>>::empty());
    }
    while i < all.len()
        invariant
            i <= all@.len(),
            texts == names::lines_of(listing@),
            names::slice_texts(all@) == texts,
            prefix@ == "benchmarks_"@,
            suffix@ == ".tar.gz"@,
            forall|name: Seq<char>| #[trigger]
                text::views(found@).contains(name) <==> is_archive(name) && texts.take(
                    i as int,
                ).contains(name),
        decreases all@.len() - i,
    {
        let ghost earlier = found@;
        let line = all[i];
        let keep = starts_with(line, prefix.as_slice()) && ends_with(line, suffix.as_slice());
        if keep {
            found.push(text_of(line));
        }
        proof {
            assert(texts[i as int] == line@);
            assert(texts.take(i + 1) =~= texts.take(i as int).push(line@));
            assert forall|name: Seq<char>| #[trigger]
                text::views(found@).contains(name) <==> is_archive(name) && texts.take(
                i + 1,
            ).contains(name) by {
                names::lemma_push_contains(texts.take(i as int), line@, name);
                if keep {
                    assert(text::views(found@) =~= text::views(earlier).push(line@));
                    names::lemma_push_contains(text::views(earlier), line@, name);
                }
            }
        }
        i += 1;
    }
    proof {
        assert(texts.take(texts.len() as int) =~= texts);
    }
    sorted_names(found)
}

/// The configuration that an artifact is named after.
pub fn artifact_label(name: &str) -> (label: String)
    requires
        text::begins(name@, "benchmarks_"@),
    ensures
        name@ == "benchmarks_"@ + label@,
{
    let chars = chars_of(name);
    let prefix = chars_of("benchmarks_");
    let label = slice_subrange(chars.as_slice(), prefix.len(), chars.len());
    proof {
        assert(name@ =~= name@.take(prefix@.len() as int) + label@);
    }
    text_of(label)
}

/// The configuration that an archive is named after.
pub fn asset_label(name: &str) -> (label: String)
    requires
        is_archive(name@),
    ensures
        name@ == "benchmarks_"@ + label@ + ".tar.gz"@,
{
    let chars = chars_of(name);
    let prefix = chars_of("benchmarks_");
    let suffix = chars_of(".tar.gz");
    proof {
        reveal_strlit("benchmarks_");
        reveal_strlit(".tar.gz");
        let start = name@.len() - suffix@.len();
        if start < prefix@.len() {
            assert(name@.skip(start)[0] == '.');
            assert(name@.take(prefix@.len() as int)[start] == '.');
            assert(false);
        }
    }
    let label = slice_subrange(chars.as_slice(), prefix.len(), chars.len() - suffix.len());
    proof {
        assert(name@ =~= name@.take(prefix@.len() as int) + label@ + name@.skip(
            name@.len() - suffix@.len(),
        ));
    }
    text_of(label)
}

/// A comparison of two commits says that the second is the first or was built on top of it.
pub open spec fn says_descends(status: Seq<char>) -> bool {
    text::trim_of(status) == "identical"@ || text::trim_of(status) == "ahead"@
}

/// Whether the status of a comparison says that a commit descends from another.
pub fn descends(status: &str) -> (built_on: bool)
    ensures
        built_on <==> says_descends(status@),
{
    let chars = chars_of(status);
    let identical = chars_of("identical");
    let ahead = chars_of("ahead");
    let bare = trim(chars.as_slice());
    same(bare, identical.as_slice()) || same(bare, ahead.as_slice())
}

/// The branch that a pull request targets and the commit it ends with.
pub fn pull_request_refs(refs: &str) -> (found: Option<(String, String)>)
    ensures
        match found {
            Some((base, head)) => text::split_once_of(text::trim_of(refs@), ' ') == Some(
                (base@, head@),
            ),
            None => text::split_once_of(text::trim_of(refs@), ' ') is None,
        },
{
    let chars = chars_of(refs);
    match split_once(trim(chars.as_slice()), ' ') {
        Some((base, head)) => Some((text_of(base), text_of(head))),
        None => None,
    }
}

/// A workflow run.
pub struct Run {
    /// Its number.
    pub id: u64,
    /// The commit that it ran on.
    pub head_sha: String,
    /// When it was created, as a text that sorts by time.
    pub created_at: String,
}

/// A run comes before another in a listing: it was created later, or as late with a higher
/// number.
pub open spec fn newer(a: Run, b: Run) -> bool {
    text::before(b.created_at@, a.created_at@) || (a.created_at@ == b.created_at@ && a.id > b.id)
}

/// Runs with one more in its place, behind those that it is not newer than.
pub open spec fn insert_run(runs: Seq<Run>, run: Run) -> Seq<Run>
    decreases runs.len(),
{
    if runs.len() > 0 && newer(run, runs.last()) {
        insert_run(runs.drop_last(), run).push(runs.last())
    } else {
        runs.push(run)
    }
}

/// Runs, newest first. Runs that are equally new keep their order.
pub open spec fn newest_first(runs: Seq<Run>) -> Seq<Run>
    decreases runs.len(),
{
    if runs.len() == 0 {
        runs
    } else {
        insert_run(newest_first(runs.drop_last()), runs.last())
    }
}

/// Runs without those that repeat the number of the one kept before.
pub open spec fn without_repeats(runs: Seq<Run>) -> Seq<Run>
    decreases runs.len(),
{
    if runs.len() == 0 {
        runs
    } else {
        let front = without_repeats(runs.drop_last());
        if front.len() > 0 && front.last().id == runs.last().id {
            front
        } else {
            front.push(runs.last())
        }
    }
}

/// No run is newer than one before it.
pub open spec fn runs_in_order(runs: Seq<Run>) -> bool {
    forall|i: int, j: int| 0 <= i < j < runs.len() ==> !newer(#[trigger] runs[j], #[trigger] runs[i])
}

/// Whether a run is newer than another.
fn is_newer(a: &Run, b: &Run) -> (later: bool)
    ensures
        later == newer(*a, *b),
{
    let ours = chars_of(a.created_at.as_str());
    let theirs = chars_of(b.created_at.as_str());
    comes_before(theirs.as_slice(), ours.as_slice()) || (same(ours.as_slice(), theirs.as_slice())
        && a.id > b.id)
}

proof fn lemma_insert_run(runs: Seq<Run>, run: Run, at: int)
    requires
        0 <= at <= runs.len(),
        forall|k: int| at <= k < runs.len() ==> newer(run, #[trigger] runs[k]),
        at > 0 ==> !newer(run, runs[at - 1]),
    ensures
        insert_run(runs, run) == runs.insert(at, run),
    decreases runs.len(),
{
    if at < runs.len() {
        lemma_insert_run(runs.drop_last(), run, at);
        assert(runs.drop_last().insert(at, run).push(runs.last()) =~= runs.insert(at, run));
    } else {
        assert(runs.push(run) =~= runs.insert(at, run));
    }
}

/// Sort runs, newest first.
fn sort_runs(runs: Vec<Run>) -> (sorted: Vec<Run>)
    ensures
        sorted@ == newest_first(runs@),
{
    let ghost all = runs@;
    let mut sorted: Vec<Run> = Vec::new();
    proof {
        assert(all.take(0) =~= Seq::<Run>::empty());
    }
    for run in it: runs
        invariant
            it.seq() == all,
            sorted@ == newest_first(all.take(it.index() as int)),
    {
        proof {
            let now = all.take(it.index() + 1);
            assert(now.drop_last() =~= all.take(it.index() as int));
            assert(now.last() == run);
        }
        let mut at: usize = sorted.len();
        while at > 0 && is_newer(&run, &sorted[at - 1])
            invariant
                at <= sorted@.len(),
                forall|k: int| at <= k < sorted@.len() ==> newer(run, #[trigger] sorted@[k]),
            decreases at,
        {
            at -= 1;
        }
        proof {
            lemma_insert_run(sorted@, run, at as int);
        }
        sorted.insert(at, run);
    }
    proof {
        assert(all.take(all.len() as int) =~= all);
    }
    sorted
}

/// Drop the runs that repeat the number of the one kept before.
fn drop_repeats(runs: Vec<Run>) -> (kept: Vec<Run>)
    ensures
        kept@ == without_repeats(runs@),
{
    let ghost all = runs@;
    let mut kept: Vec<Run> = Vec::new();
    proof {
        assert(all.take(0) =~= Seq::<Run>::empty());
    }
    for run in it: runs
        invariant
            it.seq() == all,
            kept@ == without_repeats(all.take(it.index() as int)),
    {
        proof {
            let now = all.take(it.index() + 1);
            assert(now.drop_last() =~= all.take(it.index() as int));
            assert(now.last() == run);
        }
        let size: usize = kept.len();
        if size == 0 || kept[size - 1].id != run.id {
            kept.push(run);
        }
    }
    proof {
        assert(all.take(all.len() as int) =~= all);
    }
    kept
}

/// A listing of runs that is asked for until two replies agree.
///
/// The service answers out of an index that takes a moment to warm, leaving the most recent
/// runs out of the first replies. Taking one at its word picks a baseline months older than
/// the one asked for, so ask until two replies agree on the newest run and keep everything
/// either of them saw.
pub struct RunListing {
    /// Every run that a reply held, reply after reply.
    pub seen: Vec<Run>,
    /// The first run of the last reply.
    pub newest: Option<u64>,
    /// How many replies there were.
    pub replies: u64,
    /// Whether the last two replies agreed on the newest run.
    pub agreed: bool,
}

/// The number of the first run of a reply.
pub open spec fn first_id(listed: Seq<Run>) -> Option<u64> {
    if listed.len() == 0 {
        None
    } else {
        Some(listed[0].id)
    }
}

/// What a listing is after a reply whose first run is `first`: how many replies there were,
/// and whether the last two agreed.
pub open spec fn after_reply(replies: u64, newest: Option<u64>, first: Option<u64>) -> (int, bool) {
    (replies + 1, first is Some && first == newest)
}

impl RunListing {
    /// A listing without a reply yet.
    pub fn new() -> (listing: RunListing)
        ensures
            listing.seen@.len() == 0,
            listing.newest is None,
            listing.replies == 0,
            !listing.agreed,
    {
        RunListing { seen: Vec::new(), newest: None, replies: 0, agreed: false }
    }

    /// Another reply is wanted.
    pub open spec fn wants_reply(self) -> bool {
        !self.agreed && self.replies < LISTINGS
    }

    /// Whether another reply is wanted.
    pub fn wants_more(&self) -> (more: bool)
        ensures
            more == self.wants_reply(),
    {
        !self.agreed && self.replies < LISTINGS
    }

    /// Take a reply.
    pub fn take(&mut self, listed: Vec<Run>)
        requires
            old(self).wants_reply(),
        ensures
            final(self).seen@ == old(self).seen@ + listed@,
            final(self).newest == first_id(listed@),
            final(self).replies == old(self).replies + 1,
            (final(self).replies as int, final(self).agreed) == after_reply(
                old(self).replies,
                old(self).newest,
                first_id(listed@),
            ),
            final(self).agreed == (first_id(listed@) is Some && first_id(listed@) == old(
                self,
            ).newest),
    {
        let latest: Option<u64> = if listed.len() == 0 {
            None
        } else {
            Some(listed[0].id)
        };
        let mut listed = listed;
        self.seen.append(&mut listed);
        self.agreed = match (latest, self.newest) {
            (Some(now), Some(earlier)) => now == earlier,
            _ => false,
        };
        self.newest = latest;
        self.replies += 1;
    }

    /// Every run that a reply held, newest first and each once.
    pub fn finish(self) -> (runs: Vec<Run>)
        ensures
            runs@ == without_repeats(newest_first(self.seen@)),
    {
        drop_repeats(sort_runs(self.seen))
    }
}

/// A search for the first of some runs that fits, asked about one by one.
pub struct RunSearch {
    /// The runs, in the order in which to ask.
    pub runs: Vec<Run>,
    /// The run to ask about next.
    pub at: usize,
    /// The run that fits.
    pub found: Option<u64>,
}

/// The run to ask about next and the one that was found, once the run at `at` was asked about.
pub open spec fn after_answer(runs: Seq<Run>, at: int, fits: bool) -> (int, Option<u64>) {
    if fits {
        (at, Some(runs[at].id))
    } else {
        (at + 1, None)
    }
}

/// The run that a search finds when the runs fit or do not fit as told.
pub open spec fn found_by(runs: Seq<Run>, at: int, fit: Seq<bool>) -> Option<u64>
    decreases runs.len() - at,
{
    if at >= runs.len() {
        None
    } else {
        match after_answer(runs, at, fit[at]) {
            (_, Some(id)) => Some(id),
            (next, None) => if next > at {
                found_by(runs, next, fit)
            } else {
                None
            },
        }
    }
}

impl RunSearch {
    /// The next run is among the runs.
    pub open spec fn wf(self) -> bool {
        self.at <= self.runs@.len()
    }

    /// Search some runs.
    pub fn new(runs: Vec<Run>) -> (search: RunSearch)
        ensures
            search.wf(),
            search.runs == runs,
            search.at == 0,
            search.found is None,
    {
        RunSearch { runs, at: 0, found: None }
    }

    /// The run to ask about, while none was found and some are left.
    pub fn candidate(&self) -> (run: Option<&Run>)
        requires
            self.wf(),
        ensures
            match run {
                Some(run) => self.found is None && self.at < self.runs@.len() && *run
                    == self.runs@[self.at as int],
                None => self.found is Some || self.at == self.runs@.len(),
            },
    {
        if self.found.is_none() && self.at < self.runs.len() {
            Some(&self.runs[self.at])
        } else {
            None
        }
    }

    /// Take the answer for the run that was asked about.
    pub fn answer(&mut self, fits: bool)
        requires
            old(self).wf(),
            old(self).found is None,
            old(self).at < old(self).runs@.len(),
        ensures
            final(self).wf(),
            final(self).runs == old(self).runs,
            (final(self).at as int, final(self).found) == after_answer(
                old(self).runs@,
                old(self).at as int,
                fits,
            ),
            fits ==> final(self).found == Some(old(self).runs@[old(self).at as int].id)
                && final(self).at == old(self).at,
            !fits ==> final(self).found is None && final(self).at == old(self).at + 1,
    {
        if fits {
            self.found = Some(self.runs[self.at].id);
        } else {
            let size: usize = self.runs.len();
            assert(self.at < size);
            self.at += 1;
        }
    }
}

/// Runs come out newest first, and they are the runs that went in.
pub proof fn law_runs_come_newest_first(runs: Seq<Run>)
    ensures
        runs_in_order(newest_first(runs)),
        newest_first(runs).to_multiset() == runs.to_multiset(),
    decreases runs.len(),
{
    broadcast use group_to_multiset_ensures;

    if runs.len() > 0 {
        law_runs_come_newest_first(runs.drop_last());
        let sorted = newest_first(runs.drop_last());
        let run = runs.last();
        lemma_insert_keeps_order(sorted, run);
        assert(runs.drop_last().push(run) =~= runs);
    }
}

proof fn lemma_insert_keeps_order(runs: Seq<Run>, run: Run)
    requires
        runs_in_order(runs),
    ensures
        runs_in_order(insert_run(runs, run)),
        insert_run(runs, run).to_multiset() == runs.to_multiset().insert(run),
        insert_run(runs, run).len() == runs.len() + 1,
    decreases runs.len(),
{
    broadcast use group_to_multiset_ensures;

    if runs.len() > 0 && newer(run, runs.last()) {
        let front = runs.drop_last();
        let last = runs.last();
        lemma_insert_keeps_order(front, run);
        let inner = insert_run(front, run);
        let whole = inner.push(last);
        assert(front.push(last) =~= runs);
        assert(whole.to_multiset() =~= runs.to_multiset().insert(run));
        assert forall|i: int, j: int| 0 <= i < j < whole.len() implies !newer(
            #[trigger] whole[j],
            #[trigger] whole[i],
        ) by {
            if j == whole.len() - 1 {
                assert(inner.to_multiset().contains(inner[i]));
                lemma_not_newer_than_inserted(front, run, last, inner, i);
            }
        }
    } else {
        let whole = runs.push(run);
        assert forall|i: int, j: int| 0 <= i < j < whole.len() implies !newer(
            #[trigger] whole[j],
            #[trigger] whole[i],
        ) by {
            if j == runs.len() {
                let last = runs.last();
                assert(!newer(run, last));
                if i < runs.len() - 1 {
                    assert(!newer(last, runs[i]));
                    lemma_not_newer_transitive(run, last, runs[i]);
                }
            }
        }
    }
}

/// A run that is not newer than a second, which is not newer than a third, is not newer than
/// the third.
proof fn lemma_not_newer_transitive(a: Run, b: Run, c: Run)
    requires
        !newer(a, b),
        !newer(b, c),
    ensures
        !newer(a, c),
{
    let (ta, tb, tc) = (a.created_at@, b.created_at@, c.created_at@);
    text::lemma_before_total(ta, tb);
    text::lemma_before_total(tb, tc);
    text::lemma_before_total(ta, tc);
    if newer(a, c) {
        if text::before(tc, ta) {
            if text::before(ta, tb) {
                text::lemma_before_transitive(tc, ta, tb);
                text::lemma_before_total(tc, tb);
            }
        } else {
            if text::before(ta, tb) {
                text::lemma_before_total(tb, tc);
            }
        }
    }
}

proof fn lemma_not_newer_than_inserted(
    front: Seq<Run>,
    run: Run,
    last: Run,
    inner: Seq<Run>,
    i: int,
)
    requires
        runs_in_order(front.push(last)),
        newer(run, last),
        inner.to_multiset() == front.to_multiset().insert(run),
        0 <= i < inner.len(),
    ensures
        !newer(last, inner[i]),
{
    broadcast use group_to_multiset_ensures;

    assert(inner.to_multiset().count(inner[i]) > 0);
    text::lemma_before_total(run.created_at@, last.created_at@);
    if inner[i] != run {
        assert(front.to_multiset().count(inner[i]) > 0);
        assert(front.contains(inner[i]));
        let k = choose|k: int| 0 <= k < front.len() && front[k] == inner[i];
        assert(front.push(last)[k] == inner[i]);
        assert(front.push(last)[front.len() as int] == last);
    }
}

/// A listing is asked for until two replies agree on the newest run, and at most five times.
/// Replies without a run agree on nothing.
pub proof fn law_listing_is_asked_for_until_two_agree(
    listing: RunListing,
    next: RunListing,
    listed: Seq<Run>,
)
    requires
        listing.wants_reply(),
        (next.replies as int, next.agreed) == after_reply(
            listing.replies,
            listing.newest,
            first_id(listed),
        ),
    ensures
        next.replies <= 5,
        next.replies == 5 ==> !next.wants_reply(),
        listed.len() == 0 ==> !next.agreed,
        listed.len() > 0 ==> (next.agreed <==> listing.newest == Some(listed[0].id)),
        next.agreed ==> !next.wants_reply(),
        !next.agreed && next.replies < 5 ==> next.wants_reply(),
{
}

/// An artifact counts where it is named as one of benchmarks and its contents are still there.
pub proof fn law_expired_artifacts_do_not_count(artifact: Artifact, label: Seq<char>)
    ensures
        artifact.expired ==> !holds_results(artifact),
        artifact.name@ == "benchmarks_"@ + label && !artifact.expired ==> holds_results(artifact),
        holds_results(artifact) ==> exists|rest: Seq<char>| artifact.name@ == #[trigger] (
        "benchmarks_"@ + rest),
{
    if artifact.name@ == "benchmarks_"@ + label {
        text::law_parts_of_a_text(Seq::empty(), "benchmarks_"@, label);
    }
    if holds_results(artifact) {
        text::law_found_part_is_there(artifact.name@, "benchmarks_"@);
        let rest = artifact.name@.skip("benchmarks_"@.len() as int);
        assert(artifact.name@ == "benchmarks_"@ + rest);
    }
}

/// A configuration's archive is named after it, and every archive is named after one.
pub proof fn law_archives_are_named_after_configurations(label: Seq<char>)
    ensures
        is_archive("benchmarks_"@ + label + ".tar.gz"@),
        !is_archive("benchmarks_"@) && !is_archive(".tar.gz"@),
{
    reveal_strlit("benchmarks_");
    reveal_strlit(".tar.gz");
    let name = "benchmarks_"@ + label + ".tar.gz"@;
    text::law_parts_of_a_text("benchmarks_"@ + label, ".tar.gz"@, Seq::empty());
    text::law_parts_of_a_text(Seq::empty(), "benchmarks_"@, label + ".tar.gz"@);
    assert(name =~= "benchmarks_"@ + (label + ".tar.gz"@));
    if is_archive("benchmarks_"@) {
        assert("benchmarks_"@.skip(4)[0] == '.');
        assert("benchmarks_"@[4] == 'h');
    }
}

/// A commit descends from another where the comparison says that it is the same or ahead,
/// whatever white space is around the word, and in no other case.
pub proof fn law_same_or_ahead_descends(status: Seq<char>)
    ensures
        says_descends("identical"@),
        says_descends("ahead"@),
        says_descends(status) <==> says_descends(text::trim_of(status)),
        text::trim_of(status) != "identical"@ && text::trim_of(status) != "ahead"@
            ==> !says_descends(status),
{
    reveal_strlit("identical");
    reveal_strlit("ahead");
    text::law_text_without_space_around_it_is_kept("identical"@);
    text::law_text_without_space_around_it_is_kept("ahead"@);
    text::law_trimmed_text_has_no_space_around_it(status);
    text::law_text_without_space_around_it_is_kept(text::trim_of(status));
}

/// A search finds the first of the runs that fits, and nothing where none does.
pub proof fn law_search_finds_the_first_that_fits(
    runs: Seq<Run>,
    at: int,
    fit: Seq<bool>,
    first: int,
)
    requires
        0 <= at <= first <= runs.len(),
        forall|i: int| at <= i < first ==> !#[trigger] fit[i],
        first < runs.len() ==> fit[first],
    ensures
        first < runs.len() ==> found_by(runs, at, fit) == Some(runs[first].id),
        first == runs.len() ==> found_by(runs, at, fit) is None,
    decreases first - at,
{
    if at < first {
        assert(!fit[at]);
        law_search_finds_the_first_that_fits(runs, at + 1, fit, first);
    }
}

} // verus!
