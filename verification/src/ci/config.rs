//! The benchmark report configuration.

use regex::{Error as RegexError, RegexSet, SetMatches};
use vstd::prelude::*;
use vstd::seq_lib::*;
use vstd::string::*;

use crate::text;

verus! {

/// A set of compiled patterns.
#[verifier::external_type_specification]
#[verifier::external_body]
pub struct ExRegexSet(RegexSet);

/// Which patterns of a set matched a text.
#[verifier::external_type_specification]
#[verifier::external_body]
pub struct ExSetMatches(SetMatches);

/// Why patterns do not compile.
#[verifier::external_type_specification]
#[verifier::external_body]
pub struct ExRegexError(RegexError);

/// The patterns that a set was made from.
pub uninterp spec fn set_patterns(set: RegexSet) -> Seq<Seq<char>>;

/// For each pattern of a set, whether it matched.
pub uninterp spec fn match_flags(matches: SetMatches) -> Seq<bool>;

/// Whether some patterns compile.
pub uninterp spec fn patterns_compile(patterns: Seq<Seq<char>>) -> bool;

/// Whether a pattern matches somewhere in a text.
pub uninterp spec fn pattern_matches(pattern: Seq<char>, haystack: Seq<char>) -> bool;

/// `RegexSet::new`: compiles patterns, in their order, or tells why they do not compile.
#[verifier::external_body]
fn compile(patterns: &Vec<String>) -> (set: Result<RegexSet, RegexError>)
    ensures
        match set {
            Ok(set) => patterns_compile(text::views(patterns@)) && set_patterns(set)
                == text::views(patterns@),
            Err(_) => !patterns_compile(text::views(patterns@)),
        },
{
    RegexSet::new(patterns)
}

/// `RegexSet::patterns`: the patterns that a set was made from, in their order.
#[verifier::external_body]
fn patterns_of(set: &RegexSet) -> (patterns: &[String])
    ensures
        text::views(patterns@) == set_patterns(*set),
{
    set.patterns()
}

/// `RegexSet::matches`: each pattern of a set is matched with a text on its own.
#[verifier::external_body]
fn match_set(set: &RegexSet, haystack: &str) -> (matches: SetMatches)
    ensures
        match_flags(matches).len() == set_patterns(*set).len(),
        forall|i: int|
            0 <= i < set_patterns(*set).len() ==> #[trigger] match_flags(matches)[i]
                == pattern_matches(set_patterns(*set)[i], haystack@),
{
    set.matches(haystack)
}

/// `SetMatches::matched`: whether the pattern at an index matched.
#[verifier::external_body]
fn matched(matches: &SetMatches, index: usize) -> (hit: bool)
    requires
        index < match_flags(*matches).len(),
    ensures
        hit == match_flags(*matches)[index as int],
{
    matches.matched(index)
}

/// `RegexSet::is_match`: whether any pattern of a set matches a text.
#[verifier::external_body]
fn matches_any(set: &RegexSet, haystack: &str) -> (hit: bool)
    ensures
        hit <==> any_matches(set_patterns(*set), haystack@),
{
    set.is_match(haystack)
}

/// A pattern among some matches a text.
pub open spec fn any_matches(patterns: Seq<Seq<char>>, haystack: Seq<char>) -> bool {
    exists|i: int| 0 <= i < patterns.len() && pattern_matches(#[trigger] patterns[i], haystack)
}

/// Benchmark id patterns selecting which results are reported.
pub struct BenchConfig {
    /// Which benchmarks to report, all where there is no pattern.
    pub allow: RegexSet,
    /// Which benchmarks to leave out.
    pub deny: RegexSet,
    /// Which repository the runs belong to.
    pub repo: Option<String>,
    /// How many changes to call out before the tables.
    pub summary_limit: Option<usize>,
    /// Whether a report says how to ask for it again.
    pub reproduce: Option<bool>,
}

/// Why a configuration cannot be used.
pub enum ConfigError {
    /// A pattern does not compile.
    Pattern(RegexError),
    /// Allowlist patterns match no benchmark.
    Stale(Vec<String>),
    /// No benchmark is selected.
    ExcludesEverything,
}

/// A benchmark is selected by an allowlist and a denylist.
pub open spec fn selects(
    allow: Seq<Seq<char>>,
    deny: Seq<Seq<char>>,
    benchmark: Seq<char>,
) -> bool {
    (allow.len() == 0 || any_matches(allow, benchmark)) && !any_matches(deny, benchmark)
}

/// The benchmarks that are selected, in their order.
pub open spec fn selection(
    allow: Seq<Seq<char>>,
    deny: Seq<Seq<char>>,
    benchmarks: Seq<Seq<char>>,
) -> Seq<Seq<char>> {
    benchmarks.filter(|benchmark: Seq<char>| selects(allow, deny, benchmark))
}

/// A pattern matches a benchmark among some.
pub open spec fn used(pattern: Seq<char>, benchmarks: Seq<Seq<char>>) -> bool {
    exists|i: int| 0 <= i < benchmarks.len() && pattern_matches(pattern, #[trigger] benchmarks[i])
}

/// The patterns that match no benchmark, in their order.
pub open spec fn stale(allow: Seq<Seq<char>>, benchmarks: Seq<Seq<char>>) -> Seq<Seq<char>> {
    allow.filter(|pattern: Seq<char>| !used(pattern, benchmarks))
}

/// Why a selection cannot be used, given how many patterns match nothing, how many benchmarks
/// are left, and whether there are patterns at all.
pub open spec fn unusable(unused: nat, left: nat, restricted: bool) -> Option<bool> {
    if unused > 0 {
        Some(true)
    } else if left == 0 && restricted {
        Some(false)
    } else {
        None
    }
}

/// Texts with a separator between them.
pub open spec fn joined(texts: Seq<Seq<char>>, separator: Seq<char>) -> Seq<char>
    decreases texts.len(),
{
    if texts.len() == 0 {
        Seq::empty()
    } else if texts.len() == 1 {
        texts[0]
    } else {
        joined(texts.drop_last(), separator) + separator + texts.last()
    }
}

/// Put a separator between texts.
fn join(texts: &Vec<String>, separator: &str) -> (whole: String)
    ensures
        whole@ == joined(text::views(texts@), separator@),
{
    let ghost all = text::views(texts@);
    let mut whole = "".to_owned();
    let mut i: usize = 0;
    proof {
        reveal_strlit("");
        assert(whole@ =~= Seq::<char>::empty());
    }
    while i < texts.len()
        invariant
            i <= texts@.len(),
            all == text::views(texts@),
            whole@ == joined(all.take(i as int), separator@),
        decreases texts@.len() - i,
    {
        proof {
            assert(all.take(i + 1).drop_last() =~= all.take(i as int));
            assert(all.take(i + 1).last() == texts@[i as int]@);
        }
        if i > 0 {
            whole.append(separator);
        }
        whole.append(texts[i].as_str());
        i += 1;
    }
    proof {
        assert(all.take(all.len() as int) =~= all);
    }
    whole
}

impl ConfigError {
    /// What to tell of an unusable selection. A pattern that does not compile tells of itself.
    pub fn message(&self) -> (message: Option<String>)
        ensures
            match self {
                ConfigError::Pattern(_) => message is None,
                ConfigError::Stale(patterns) => message matches Some(m) && m@
                    == "Benchmark allowlist patterns match no benchmark: "@ + joined(
                    text::views(patterns@),
                    ", "@,
                ),
                ConfigError::ExcludesEverything => message matches Some(m) && m@
                    == "Benchmark config excludes every benchmark"@,
            },
    {
        match self {
            ConfigError::Pattern(_) => None,
            ConfigError::Stale(patterns) => {
                let mut message = "Benchmark allowlist patterns match no benchmark: ".to_owned();
                let list = join(patterns, ", ");
                message.append(list.as_str());
                Some(message)
            },
            ConfigError::ExcludesEverything => Some(
                "Benchmark config excludes every benchmark".to_owned(),
            ),
        }
    }
}

impl BenchConfig {
    /// The allowlist's patterns.
    pub open spec fn allowlist(self) -> Seq<Seq<char>> {
        set_patterns(self.allow)
    }

    /// The denylist's patterns.
    pub open spec fn denylist(self) -> Seq<Seq<char>> {
        set_patterns(self.deny)
    }

    /// A configuration with an allowlist and a denylist.
    pub fn new(
        allowlist: &Vec<String>,
        denylist: &Vec<String>,
        repo: Option<String>,
        summary_limit: Option<usize>,
        reproduce: Option<bool>,
    ) -> (config: Result<BenchConfig, ConfigError>)
        ensures
            match config {
                Ok(config) => {
                    &&& patterns_compile(text::views(allowlist@))
                    &&& patterns_compile(text::views(denylist@))
                    &&& config.allowlist() == text::views(allowlist@)
                    &&& config.denylist() == text::views(denylist@)
                    &&& config.repo == repo
                    &&& config.summary_limit == summary_limit
                    &&& config.reproduce == reproduce
                },
                Err(error) => {
                    &&& error is Pattern
                    &&& !patterns_compile(text::views(allowlist@)) || !patterns_compile(
                        text::views(denylist@),
                    )
                },
            },
    {
        let allow = match compile(allowlist) {
            Ok(set) => set,
            Err(error) => return Err(ConfigError::Pattern(error)),
        };
        let deny = match compile(denylist) {
            Ok(set) => set,
            Err(error) => return Err(ConfigError::Pattern(error)),
        };
        Ok(BenchConfig { allow, deny, repo, summary_limit, reproduce })
    }

    /// Keep the selected benchmarks, rejecting allowlist patterns that match nothing.
    ///
    /// Empty lists keep every benchmark. A denylist pattern matching nothing is accepted,
    /// because a benchmark may be absent on some platforms.
    pub fn select(&self, benchmarks: Vec<String>) -> (selected: Result<Vec<String>, ConfigError>)
        ensures
            ({
                let all = text::views(benchmarks@);
                unusable(
                    stale(self.allowlist(), all).len(),
                    selection(self.allowlist(), self.denylist(), all).len(),
                    self.restricts(),
                ) == match selected {
                    Ok(_) => None,
                    Err(error) => Some(error is Stale),
                }
            }),
            ({
                let all = text::views(benchmarks@);
                let left = selection(self.allowlist(), self.denylist(), all);
                let unused = stale(self.allowlist(), all);
                match selected {
                    Ok(selected) => {
                        &&& unused.len() == 0
                        &&& left.len() > 0 || !self.restricts()
                        &&& text::views(selected@) == left
                    },
                    Err(ConfigError::Stale(patterns)) => unused.len() > 0 && text::views(
                        patterns@,
                    ) == unused,
                    Err(ConfigError::ExcludesEverything) => unused.len() == 0 && left.len() == 0
                        && self.restricts(),
                    Err(ConfigError::Pattern(_)) => false,
                }
            }),
    {
        let ghost all = text::views(benchmarks@);
        let ghost allow = self.allowlist();
        let ghost deny = self.denylist();
        let ghost pick = |benchmark: Seq<char>| selects(allow, deny, benchmark);
        let patterns = patterns_of(&self.allow);
        let count: usize = patterns.len();
        let mut hits: Vec<bool> = Vec::new();
        let mut i: usize = 0;
        while i < count
            invariant
                i <= count,
                hits@.len() == i,
                forall|k: int| 0 <= k < i ==> !hits@[k],
            decreases count - i,
        {
            hits.push(false);
            i += 1;
        }
        let mut selected: Vec<String> = Vec::new();
        proof {
            assert(all.take(0) =~= Seq::<Seq<char>>::empty());
            reveal(Seq::filter);
            assert(text::views(selected@) =~= all.take(0).filter(pick));
        }
        for benchmark in it: benchmarks
            invariant
                it.seq() == benchmarks@,
                all == text::views(benchmarks@),
                allow == self.allowlist(),
                deny == self.denylist(),
                allow == set_patterns(self.allow),
                deny == set_patterns(self.deny),
                count == allow.len(),
                hits@.len() == count,
                pick == (|benchmark: Seq<char>| selects(allow, deny, benchmark)),
                forall|k: int|
                    0 <= k < count ==> #[trigger] hits@[k] == used(
                        allow[k],
                        all.take(it.index() as int),
                    ),
                text::views(selected@) == all.take(it.index() as int).filter(pick),
        {
            let ghost earlier = all.take(it.index() as int);
            let ghost now = all.take(it.index() + 1);
            let ghost kept = selected@;
            let ghost added = benchmark@;
            proof {
                assert(now =~= earlier.push(added));
                assert(now.drop_last() =~= earlier);
            }
            let matches = match_set(&self.allow, benchmark.as_str());
            let mut allowed = count == 0;
            let mut j: usize = 0;
            while j < count
                invariant
                    j <= count,
                    count == allow.len(),
                    hits@.len() == count,
                    now == earlier.push(added),
                    match_flags(matches).len() == count,
                    forall|k: int|
                        0 <= k < count ==> #[trigger] match_flags(matches)[k] == pattern_matches(
                            allow[k],
                            added,
                        ),
                    allowed <==> count == 0 || exists|k: int|
                        0 <= k < j && pattern_matches(#[trigger] allow[k], added),
                    forall|k: int|
                        0 <= k < j ==> #[trigger] hits@[k] == used(allow[k], now),
                    forall|k: int|
                        j <= k < count ==> #[trigger] hits@[k] == used(allow[k], earlier),
                decreases count - j,
            {
                let hit = matched(&matches, j);
                proof {
                    lemma_used_push(allow[j as int], earlier, added);
                    assert(hit == match_flags(matches)[j as int]);
                }
                if hit {
                    hits.set(j, true);
                    allowed = true;
                    assert(pattern_matches(allow[j as int], added));
                }
                j += 1;
            }
            let keep = allowed && !matches_any(&self.deny, benchmark.as_str());
            proof {
                assert(keep == selects(allow, deny, added));
                lemma_filter_push(earlier, added, pick);
            }
            if keep {
                selected.push(benchmark);
                proof {
                    assert(text::views(selected@) =~= text::views(kept).push(added));
                }
            }
        }
        proof {
            assert(all.take(all.len() as int) =~= all);
        }
        let mut unused: Vec<String> = Vec::new();
        let ghost drop = |pattern: Seq<char>| !used(pattern, all);
        let mut k: usize = 0;
        proof {
            reveal(Seq::filter);
            assert(text::views(unused@) =~= allow.take(0).filter(drop));
        }
        while k < count
            invariant
                k <= count,
                count == allow.len(),
                hits@.len() == count,
                patterns@.len() == count,
                text::views(patterns@) == allow,
                drop == (|pattern: Seq<char>| !used(pattern, all)),
                forall|n: int| 0 <= n < count ==> #[trigger] hits@[n] == used(allow[n], all),
                text::views(unused@) == allow.take(k as int).filter(drop),
            decreases count - k,
        {
            let ghost earlier = unused@;
            proof {
                assert(allow.take(k + 1) =~= allow.take(k as int).push(allow[k as int]));
                lemma_filter_push(allow.take(k as int), allow[k as int], drop);
                assert(patterns@[k as int]@ == allow[k as int]);
            }
            if !hits[k] {
                unused.push(patterns[k].clone());
                proof {
                    assert(text::views(unused@) =~= text::views(earlier).push(allow[k as int]));
                }
            }
            k += 1;
        }
        proof {
            assert(allow.take(allow.len() as int) =~= allow);
            assert(text::views(unused@).len() == unused@.len());
            assert(text::views(selected@).len() == selected@.len());
        }
        if unused.len() > 0 {
            return Err(ConfigError::Stale(unused));
        }
        if selected.len() == 0 && self.filters() {
            return Err(ConfigError::ExcludesEverything);
        }
        Ok(selected)
    }

    /// The configuration restricts the reported benchmarks.
    pub open spec fn restricts(self) -> bool {
        self.allowlist().len() > 0 || self.denylist().len() > 0
    }

    /// Whether the configuration restricts the reported benchmarks at all.
    pub fn filters(&self) -> (restricted: bool)
        ensures
            restricted == self.restricts(),
    {
        let allow = patterns_of(&self.allow);
        let deny = patterns_of(&self.deny);
        proof {
            assert(text::views(allow@).len() == allow@.len());
            assert(text::views(deny@).len() == deny@.len());
        }
        allow.len() > 0 || deny.len() > 0
    }
}

proof fn lemma_used_push(pattern: Seq<char>, benchmarks: Seq<Seq<char>>, added: Seq<char>)
    ensures
        used(pattern, benchmarks.push(added)) <==> used(pattern, benchmarks) || pattern_matches(
            pattern,
            added,
        ),
{
    let all = benchmarks.push(added);
    if used(pattern, benchmarks) {
        let i = choose|i: int|
            0 <= i < benchmarks.len() && pattern_matches(pattern, #[trigger] benchmarks[i]);
        assert(pattern_matches(pattern, all[i]));
    }
    if pattern_matches(pattern, added) {
        assert(pattern_matches(pattern, all[benchmarks.len() as int]));
    }
    if used(pattern, all) {
        let i = choose|i: int| 0 <= i < all.len() && pattern_matches(pattern, #[trigger] all[i]);
        if i < benchmarks.len() {
            assert(pattern_matches(pattern, benchmarks[i]));
        }
    }
}

proof fn lemma_filter_push(
    texts: Seq<Seq<char>>,
    added: Seq<char>,
    pick: spec_fn(Seq<char>) -> bool,
)
    ensures
        texts.push(added).filter(pick) == if pick(added) {
            texts.filter(pick).push(added)
        } else {
            texts.filter(pick)
        },
{
    reveal(Seq::filter);
    assert(texts.push(added).drop_last() =~= texts);
}

/// A configuration without patterns keeps every benchmark.
pub proof fn law_empty_lists_keep_everything(benchmarks: Seq<Seq<char>>)
    ensures
        selection(Seq::empty(), Seq::empty(), benchmarks) == benchmarks,
        stale(Seq::empty(), benchmarks).len() == 0,
    decreases benchmarks.len(),
{
    reveal(Seq::filter);
    let none = Seq::<Seq<char>>::empty();
    let pick = |benchmark: Seq<char>| selects(none, none, benchmark);
    if benchmarks.len() > 0 {
        law_empty_lists_keep_everything(benchmarks.drop_last());
        lemma_filter_push(benchmarks.drop_last(), benchmarks.last(), pick);
        assert(benchmarks.drop_last().push(benchmarks.last()) =~= benchmarks);
        assert(pick(benchmarks.last()));
    } else {
        assert(benchmarks.filter(pick) =~= benchmarks);
    }
}

/// Growing the denylist only takes benchmarks away.
pub proof fn law_denylist_subtracts(
    allow: Seq<Seq<char>>,
    deny: Seq<Seq<char>>,
    more: Seq<Seq<char>>,
    benchmark: Seq<char>,
)
    requires
        selects(allow, deny + more, benchmark),
    ensures
        selects(allow, deny, benchmark),
        !any_matches(more, benchmark),
{
    if any_matches(deny, benchmark) {
        let i = choose|i: int|
            0 <= i < deny.len() && pattern_matches(#[trigger] deny[i], benchmark);
        assert((deny + more)[i] == deny[i]);
    }
    if any_matches(more, benchmark) {
        let i = choose|i: int|
            0 <= i < more.len() && pattern_matches(#[trigger] more[i], benchmark);
        assert((deny + more)[deny.len() + i] == more[i]);
    }
}

/// A configuration restricts the report exactly where it has a pattern in either list.
pub proof fn law_any_pattern_restricts(config: BenchConfig)
    ensures
        config.restricts() <==> config.allowlist().len() + config.denylist().len() > 0,
        !config.restricts() ==> forall|benchmark: Seq<char>| #[trigger]
            selects(config.allowlist(), config.denylist(), benchmark),
{
}

/// Patterns that match nothing make a selection unusable before all else; one that leaves
/// nothing is unusable only where patterns did so.
pub proof fn law_stale_patterns_come_before_an_empty_selection(
    unused: nat,
    left: nat,
    restricted: bool,
)
    ensures
        unusable(unused, left, restricted) == Some(true) <==> unused > 0,
        unusable(unused, left, restricted) == Some(false) <==> unused == 0 && left == 0
            && restricted,
        left > 0 && unused == 0 ==> unusable(unused, left, restricted) is None,
        !restricted && unused == 0 ==> unusable(unused, left, restricted) is None,
{
}

} // verus!
