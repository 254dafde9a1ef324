//! What holds of benchmark reports and of where their results come from.

use vstd::prelude::*;
use vstd::seq_lib::*;

use super::ballast;
use super::bench_report;
use super::bench_report::{IdentityView, Input, SourceView};
use super::config;
use super::manifest;
use super::manifest::Host;
use super::names;
use super::remote;
use super::remote::Run;
use crate::text;

verus! {

/// A text splits at a character that its first part does not hold.
proof fn lemma_splits(kind: Seq<char>, rest: Seq<char>, c: char)
    requires
        !kind.contains(c),
    ensures
        text::split_once_of(kind.push(c) + rest, c) == Some((kind, rest)),
{
    let s = kind.push(c) + rest;
    s.index_of_first_ensures(c);
    assert(s[kind.len() as int] == c);
    let i = s.index_of_first(c)->0;
    if i < kind.len() {
        assert(kind[i] == c);
    }
    assert(s.take(i) =~= kind);
    assert(s.skip(i + 1) =~= rest);
}

/// A text splits at the last character that its second part does not hold.
proof fn lemma_splits_last(front: Seq<char>, rest: Seq<char>, c: char)
    requires
        !rest.contains(c),
    ensures
        text::rsplit_once_of(front.push(c) + rest, c) == Some((front, rest)),
{
    let s = front.push(c) + rest;
    s.index_of_last_ensures(c);
    assert(s[front.len() as int] == c);
    let i = s.index_of_last(c)->0;
    if i > front.len() {
        assert(rest[i - front.len() - 1] == c);
    }
    assert(s.take(i) =~= front);
    assert(s.skip(i + 1) =~= rest);
}

/// The kinds of sources differ from each other, and none holds a colon.
proof fn lemma_kinds()
    ensures
        "commit"@.len() == 6,
        "release"@.len() == 7,
        "run"@.len() == 3,
        "pr"@.len() == 2,
        "base-of"@.len() == 7,
        "release"@ != "base-of"@,
        !"commit"@.contains(':'),
        !"release"@.contains(':'),
        !"run"@.contains(':'),
        !"pr"@.contains(':'),
        !"base-of"@.contains(':'),
{
    reveal_strlit("commit");
    reveal_strlit("release");
    reveal_strlit("run");
    reveal_strlit("pr");
    reveal_strlit("base-of");
    assert("release"@[0] == 'r');
    assert("base-of"@[0] == 'b');
}

/// A commit and a release are named by whatever follows their kind; a run, a pull request and
/// a branch point by the number that does.
pub proof fn law_sources_are_named_by_their_kind(rest: Seq<char>, id: u64)
    ensures
        bench_report::source_of("commit"@.push(':') + rest) == Ok::<SourceView, Seq<char>>(
            SourceView::Commit(rest),
        ),
        bench_report::source_of("release"@.push(':') + rest) == Ok::<SourceView, Seq<char>>(
            SourceView::Release(rest),
        ),
        bench_report::source_of("run"@.push(':') + text::number_text_of(id as nat)) == Ok::<
            SourceView,
            Seq<char>,
        >(SourceView::Run(id)),
        bench_report::source_of("pr"@.push(':') + text::number_text_of(id as nat)) == Ok::<
            SourceView,
            Seq<char>,
        >(SourceView::PullRequest(id)),
        bench_report::source_of("base-of"@.push(':') + text::number_text_of(id as nat)) == Ok::<
            SourceView,
            Seq<char>,
        >(SourceView::BaseOf(id)),
{
    lemma_kinds();
    text::law_number_round_trip(id);
    let number = text::number_text_of(id as nat);
    lemma_splits("commit"@, rest, ':');
    lemma_splits("release"@, rest, ':');
    lemma_splits("run"@, number, ':');
    lemma_splits("pr"@, number, ':');
    lemma_splits("base-of"@, number, ':');
}

/// Whatever names no known kind is a directory, and is kept as it is. A text is refused only
/// where it names a numbered kind and no number.
pub proof fn law_other_texts_are_directories(value: Seq<char>)
    ensures
        ({
            let split = text::split_once_of(value, ':');
            let numbered = split matches Some((kind, _)) && (kind == "run"@ || kind == "pr"@
                || kind == "base-of"@);
            let named = split matches Some((kind, _)) && (kind == "commit"@ || kind
                == "release"@);
            &&& !numbered && !named ==> bench_report::source_of(value) == Ok::<
                SourceView,
                Seq<char>,
            >(SourceView::Dir(value))
            &&& bench_report::source_of(value) is Err <==> numbered && (split matches Some(
                (_, rest),
            ) && text::number_of(rest) is None)
            &&& !value.contains(':') ==> bench_report::source_of(value) == Ok::<
                SourceView,
                Seq<char>,
            >(SourceView::Dir(value))
        }),
{
    lemma_kinds();
    text::law_split_parts_make_up_the_text(value, ':');
    if let Some((kind, rest)) = text::split_once_of(value, ':') {
        assert(value[kind.len() as int] == ':');
    }
}

/// What is said of a text that should have been a number shows it.
pub proof fn law_refusal_shows_what_is_not_a_number(rest: Seq<char>, kind: Seq<char>)
    ensures
        text::holds(bench_report::not_a_number(rest, kind), rest),
        text::holds(bench_report::not_a_number(rest, kind), kind),
{
    text::law_parts_of_a_text("`"@, rest, "` is not a "@ + kind + " number"@);
    text::law_parts_of_a_text("`"@ + rest + "` is not a "@, kind, " number"@);
    assert(bench_report::not_a_number(rest, kind) =~= "`"@ + rest + ("` is not a "@ + kind
        + " number"@));
}

/// A hypervisor's name loses its version, all of it and nothing more; windows has one
/// hypervisor, whatever it is called.
pub proof fn law_hypervisor_loses_its_version(os: Seq<char>, name: Seq<char>)
    ensures
        ({
            let canonical = bench_report::canonical_hypervisor_of(os, name);
            if os == "windows"@ {
                canonical == "whp"@
            } else {
                &&& text::begins(name, canonical)
                &&& forall|k: int|
                    canonical.len() <= k < name.len() ==> text::is_number(#[trigger] name[k])
                &&& canonical.len() > 0 ==> !text::is_number(canonical.last())
                &&& bench_report::canonical_hypervisor_of(os, canonical) == canonical
            }
        }),
{
    if os != "windows"@ {
        text::law_end_is_trimmed_of_all_of_a_kind(name, |c: char| text::is_number(c));
    }
}

/// An artifact is named after its system, its hypervisor and its vendor, and its name tells
/// them again. The system and the vendor hold no underscore.
pub proof fn law_artifact_name_tells_the_machine(
    os: Seq<char>,
    hypervisor: Seq<char>,
    vendor: Seq<char>,
)
    requires
        !os.contains('_'),
        !vendor.contains('_'),
    ensures
        ({
            let label = os.push('_') + hypervisor.push('_') + vendor;
            &&& bench_report::label_parts(label) == Some((os, hypervisor, vendor))
            &&& bench_report::describe_of(label) == hypervisor + " / "@ + vendor + " ("@ + os
                + ")"@
            &&& bench_report::label_identity(label) matches Some(identity) && identity.os
                == text::lower_case(os) && identity.vendor == text::lower_case(vendor)
                && identity.hypervisor == Some(
                bench_report::canonical_hypervisor_of(text::lower_case(os), hypervisor),
            )
        }),
{
    let label = os.push('_') + hypervisor.push('_') + vendor;
    lemma_splits(os, hypervisor.push('_') + vendor, '_');
    assert(label =~= os.push('_') + (hypervisor.push('_') + vendor));
    lemma_splits_last(hypervisor, vendor, '_');
}

/// A name that is not made up of three parts tells no machine, and stands for itself.
pub proof fn law_other_names_tell_nothing(label: Seq<char>)
    ensures
        match bench_report::label_parts(label) {
            Some((os, hypervisor, vendor)) => label == os.push('_') + hypervisor.push('_')
                + vendor && !os.contains('_') && !vendor.contains('_'),
            None => bench_report::label_identity(label) is None && bench_report::describe_of(
                label,
            ) == label,
        },
{
    text::law_split_parts_make_up_the_text(label, '_');
    if let Some((os, rest)) = text::split_once_of(label, '_') {
        text::law_split_parts_make_up_the_text(rest, '_');
        if let Some((hypervisor, vendor)) = text::rsplit_once_of(rest, '_') {
            assert(label =~= os.push('_') + hypervisor.push('_') + vendor);
        }
    }
}

/// A machine is known by the vendor that its processor is named after.
pub proof fn law_recorded_machine_is_known_by_its_vendor(host: Host)
    ensures
        match bench_report::host_identity(host) {
            Some(identity) => {
                &&& identity.os == host.os@
                &&& host.cpu_vendor matches Some(name) && if text::holds(name@, "AMD"@) {
                    identity.vendor == "amd"@
                } else {
                    text::holds(name@, "Intel"@) && identity.vendor == "intel"@
                }
                &&& identity.hypervisor is Some <==> host.hypervisor is Some
                &&& host.hypervisor matches Some(name) ==> identity.hypervisor == Some(
                    bench_report::canonical_hypervisor_of(host.os@, name@),
                )
            },
            None => host.cpu_vendor matches Some(name) ==> !text::holds(name@, "AMD"@)
                && !text::holds(name@, "Intel"@),
        },
{
}

/// The name of an artifact and what a run recorded tell the same machine, where they agree on
/// its system and vendor, and on its hypervisor if that was recorded.
pub proof fn law_artifact_and_record_tell_the_same_machine(
    os: Seq<char>,
    hypervisor: Seq<char>,
    vendor: Seq<char>,
    host: Host,
)
    requires
        !os.contains('_'),
        !vendor.contains('_'),
        bench_report::host_identity(host) is Some,
        text::lower_case(os) == host.os@,
        text::lower_case(vendor) == bench_report::host_identity(host)->0.vendor,
        host.hypervisor matches Some(name) ==> name@ == hypervisor,
    ensures
        bench_report::could_be(
            bench_report::label_identity(os.push('_') + hypervisor.push('_') + vendor)->0,
            bench_report::host_identity(host)->0,
        ),
{
    law_artifact_name_tells_the_machine(os, hypervisor, vendor);
}

/// What is known of two machines contradicts where they differ in system, in vendor or in
/// hypervisor, and in nothing else. What is not known contradicts nothing.
pub proof fn law_machines_differ_by_what_is_known(a: IdentityView, b: IdentityView)
    ensures
        a.os != b.os ==> !bench_report::could_be(a, b),
        a.vendor != b.vendor ==> !bench_report::could_be(a, b),
        a.hypervisor is Some && b.hypervisor is Some && a.hypervisor != b.hypervisor
            ==> !bench_report::could_be(a, b),
        a.os == b.os && a.vendor == b.vendor && (a.hypervisor == b.hypervisor || a.hypervisor
            is None || b.hypervisor is None) ==> bench_report::could_be(a, b),
{
}

/// Machines that are known in full and could each be a third could be each other.
pub proof fn law_known_machines_are_told_apart(a: IdentityView, b: IdentityView, c: IdentityView)
    requires
        a.hypervisor is Some,
        b.hypervisor is Some,
        c.hypervisor is Some,
        bench_report::could_be(a, b),
        bench_report::could_be(b, c),
    ensures
        bench_report::could_be(a, c),
        a == b,
{
}

/// A baseline of the same machine fits, one of another machine does not, and neither does one
/// of a machine that is not known.
pub proof fn law_baseline_fits_its_own_machine(
    baselines: Seq<Input>,
    i: int,
    host: bench_report::Identity,
)
    ensures
        baselines[i].host is None ==> !bench_report::fits(baselines, i, host),
        baselines[i].host matches Some(other) ==> {
            &&& other@ == host@ ==> bench_report::fits(baselines, i, host)
            &&& other@.os != host@.os || other@.vendor != host@.vendor ==> !bench_report::fits(
                baselines,
                i,
                host,
            )
        },
{
}

/// One baseline fits only where no two do, and only one can.
pub proof fn law_one_baseline_or_several(
    baselines: Seq<Input>,
    i: int,
    j: int,
    host: bench_report::Identity,
)
    ensures
        bench_report::only_fit(baselines, i, host) ==> !bench_report::several_fit(baselines, host),
        bench_report::only_fit(baselines, i, host) && bench_report::only_fit(baselines, j, host)
            ==> i == j,
        0 <= i < baselines.len() && bench_report::fits(baselines, i, host)
            ==> bench_report::several_fit(baselines, host) || bench_report::only_fit(
            baselines,
            i,
            host,
        ),
{
    if 0 <= i < baselines.len() && bench_report::fits(baselines, i, host)
        && !bench_report::only_fit(baselines, i, host) {
        let k = choose|k: int|
            0 <= k < baselines.len() && k != i && #[trigger] bench_report::fits(
                baselines,
                k,
                host,
            );
        let low = if k < i {
            k
        } else {
            i
        };
        let high = if k < i {
            i
        } else {
            k
        };
        assert(bench_report::fits(baselines, low, host) && bench_report::fits(
            baselines,
            high,
            host,
        ));
    }
}

/// A lone baseline stands in where it or the candidate does not say which machine it is, and
/// never beside another.
pub proof fn law_lone_baseline_stands_in(baselines: Seq<Input>, candidate: Input)
    ensures
        bench_report::stands_in(baselines, candidate) ==> baselines.len() == 1,
        baselines.len() == 1 && candidate.host is None ==> bench_report::stands_in(
            baselines,
            candidate,
        ),
        baselines.len() == 1 && baselines[0].host is None ==> bench_report::stands_in(
            baselines,
            candidate,
        ),
        baselines.len() == 1 && candidate.host is Some && baselines[0].host is Some
            ==> !bench_report::stands_in(baselines, candidate),
{
}

/// Inputs are kept or dropped one by one, in their order: those of two lists are those of the
/// one and then those of the other.
pub proof fn law_inputs_are_kept_one_by_one<T>(
    a: Seq<T>,
    b: Seq<T>,
    keep_a: Seq<bool>,
    keep_b: Seq<bool>,
)
    requires
        a.len() == keep_a.len(),
        b.len() == keep_b.len(),
    ensures
        bench_report::kept(a + b, keep_a + keep_b) == bench_report::kept(a, keep_a)
            + bench_report::kept(b, keep_b),
        a.len() == 1 && keep_a[0] ==> bench_report::kept(a, keep_a) == a,
        a.len() == 1 && !keep_a[0] ==> bench_report::kept(a, keep_a).len() == 0,
        a.len() == 0 ==> bench_report::kept(a, keep_a).len() == 0,
    decreases b.len(),
{
    if a.len() == 1 {
        reveal_with_fuel(bench_report::kept, 2);
        assert(a =~= seq![a[0]]);
        assert(a.drop_last() =~= Seq::<T>::empty());
    }
    if b.len() == 0 {
        assert(a + b =~= a);
        assert(keep_a + keep_b =~= keep_a);
    } else {
        let shorter = keep_b.drop_last();
        assert((a + b).drop_last() =~= a + b.drop_last());
        law_inputs_are_kept_one_by_one(a, b.drop_last(), keep_a, shorter);
        lemma_kept_by_front(a + b.drop_last(), keep_a + shorter, keep_a + keep_b);
        lemma_kept_by_front(b.drop_last(), shorter, keep_b);
        assert((keep_a + keep_b)[a.len() + b.len() - 1] == keep_b[b.len() - 1]);
        assert(bench_report::kept(a, keep_a) + bench_report::kept(b.drop_last(), keep_b).push(
            b.last(),
        ) =~= (bench_report::kept(a, keep_a) + bench_report::kept(b.drop_last(), keep_b)).push(
            b.last(),
        ));
    }
}

/// Flags beyond the items make no difference.
proof fn lemma_kept_by_front<T>(items: Seq<T>, keep: Seq<bool>, more: Seq<bool>)
    requires
        keep.len() >= items.len(),
        more.len() >= items.len(),
        forall|i: int| 0 <= i < items.len() ==> keep[i] == #[trigger] more[i],
    ensures
        bench_report::kept(items, keep) == bench_report::kept(items, more),
    decreases items.len(),
{
    if items.len() > 0 {
        lemma_kept_by_front(items.drop_last(), keep, more);
        assert(keep[items.len() - 1] == more[items.len() - 1]);
    }
}

/// A report is named after whatever it is told: nothing, the summary, the configuration, or
/// the summary and then the configuration.
pub proof fn law_title_names_what_it_is_told(summary: Option<&str>, label: Option<&str>)
    ensures
        bench_report::title_of(summary, label) is None <==> summary is None && label is None,
        bench_report::title_of(summary, label) matches Some(title) ==> {
            &&& summary matches Some(s) ==> text::begins(title, s@)
            &&& label matches Some(l) ==> text::ends(title, bench_report::describe_of(l@))
            &&& summary is None ==> title == bench_report::describe_of(label->0@)
            &&& label is None ==> title == summary->0@
        },
{
    if let Some(s) = summary {
        if let Some(l) = label {
            let described = bench_report::describe_of(l@);
            text::law_parts_of_a_text(Seq::empty(), s@, " "@ + described);
            text::law_parts_of_a_text(s@ + " "@, described, Seq::empty());
            assert(s@ + " "@ + described =~= s@ + (" "@ + described));
        } else {
            text::law_parts_of_a_text(Seq::empty(), s@, Seq::empty());
            assert(s@ + Seq::<char>::empty() =~= s@);
        }
    } else if let Some(l) = label {
        let described = bench_report::describe_of(l@);
        text::law_parts_of_a_text(Seq::empty(), described, Seq::empty());
        assert(Seq::<char>::empty() + described =~= described);
    }
}

/// A commit is shown by its first twelve characters, where these are plain, and by all of
/// them where they are fewer.
pub proof fn law_commit_is_shown_short(sha: Seq<char>)
    requires
        forall|i: int| 0 <= i < sha.len() ==> (#[trigger] sha[i] as int) < 0x80,
    ensures
        bench_report::short_of(sha) == if sha.len() >= 12 {
            sha.take(12)
        } else {
            sha
        },
{
    lemma_plain_bytes(sha, 12);
}

/// Plain characters take a byte each.
proof fn lemma_plain_bytes(s: Seq<char>, count: int)
    requires
        count >= 0,
        forall|i: int| 0 <= i < s.len() ==> (#[trigger] s[i] as int) < 0x80,
    ensures
        bench_report::first_bytes(s, count) == if s.len() >= count {
            Some(s.take(count))
        } else {
            None
        },
    decreases s.len(),
{
    if count == 0 {
        assert(s.take(0) =~= Seq::<char>::empty());
    } else if s.len() > 0 {
        assert forall|i: int| 0 <= i < s.drop_first().len() implies (#[trigger] s.drop_first()[i]
            as int) < 0x80 by {
            assert(s.drop_first()[i] == s[i + 1]);
        }
        lemma_plain_bytes(s.drop_first(), count - 1);
        assert((s[0] as int) < 0x80);
        if s.len() >= count {
            assert(seq![s[0]] + s.drop_first().take(count - 1) =~= s.take(count));
        }
    }
}

/// A commit is always shown by a start of it.
pub proof fn law_shown_commit_is_a_start_of_it(sha: Seq<char>)
    ensures
        text::begins(sha, bench_report::short_of(sha)),
{
    lemma_first_bytes_begin(sha, 12);
    assert(sha.take(sha.len() as int) =~= sha);
}

proof fn lemma_first_bytes_begin(s: Seq<char>, count: int)
    ensures
        bench_report::first_bytes(s, count) matches Some(front) ==> text::begins(s, front),
    decreases s.len(),
{
    if count == 0 {
        assert(s.take(0) =~= Seq::<char>::empty());
    } else if s.len() > 0 && bench_report::width_of(s[0]) <= count {
        lemma_first_bytes_begin(s.drop_first(), count - bench_report::width_of(s[0]));
        if let Some(rest) = bench_report::first_bytes(
            s.drop_first(),
            count - bench_report::width_of(s[0]),
        ) {
            let front = seq![s[0]] + rest;
            assert(s.take(front.len() as int) =~= seq![s[0]] + s.drop_first().take(
                rest.len() as int,
            ));
        }
    }
}

/// A link leads to the whole commit in its repository.
pub proof fn law_link_leads_to_the_commit(repo: Seq<char>, sha: Seq<char>)
    ensures
        text::ends(bench_report::link_of(repo, sha), repo + "/commit/"@ + sha + ")"@),
        text::holds(bench_report::link_of(repo, sha), bench_report::short_of(sha)),
{
    let short = bench_report::short_of(sha);
    let rest = repo + "/commit/"@ + sha + ")"@;
    lemma_regroup("[`"@, short, "`](https://github.com/"@, repo, "/commit/"@, sha, ")"@);
    text::law_parts_of_a_text("[`"@ + short + "`](https://github.com/"@, rest, Seq::empty());
    text::law_parts_of_a_text("[`"@, short, "`](https://github.com/"@ + rest);
}

/// How texts are grouped makes no difference to what they make up.
proof fn lemma_regroup(
    a: Seq<char>,
    b: Seq<char>,
    c: Seq<char>,
    d: Seq<char>,
    e: Seq<char>,
    f: Seq<char>,
    g: Seq<char>,
)
    ensures
        a + b + c + d + e + f + g == (a + b + c) + (d + e + f + g),
        a + b + c + d + e + f + g == a + b + (c + (d + e + f + g)),
{
    let front = a + b + c;
    assert(front + d + e =~= front + (d + e));
    assert(front + (d + e) + f =~= front + (d + e + f));
    assert(front + (d + e + f) + g =~= front + (d + e + f + g));
    assert(a + b + c + (d + e + f + g) =~= a + b + (c + (d + e + f + g)));
}

/// A report says which commits it covers exactly where the candidate's is known, and then
/// links the candidate's, and the baseline's where that is known too.
pub proof fn law_report_says_what_was_measured(
    repo: Seq<char>,
    candidate: Option<String>,
    baseline: Option<String>,
)
    ensures
        bench_report::measured_of(repo, candidate, baseline) is Some <==> candidate is Some,
        bench_report::measured_of(repo, candidate, baseline) matches Some(lines) ==> {
            &&& text::begins(
                lines,
                "Measured commit: "@ + bench_report::link_of(repo, candidate->0@),
            )
            &&& baseline matches Some(base) ==> text::ends(
                lines,
                "\nBaseline commit: "@ + bench_report::link_of(repo, base@) + "\n\n"@,
            )
            &&& baseline is None ==> lines == "Measured commit: "@ + bench_report::link_of(
                repo,
                candidate->0@,
            ) + "\n\n"@
        },
{
    if let Some(commit) = candidate {
        let first = "Measured commit: "@ + bench_report::link_of(repo, commit@);
        if let Some(base) = baseline {
            let rest = "\nBaseline commit: "@ + bench_report::link_of(repo, base@) + "\n\n"@;
            text::law_parts_of_a_text(Seq::empty(), first, rest);
            text::law_parts_of_a_text(first, rest, Seq::empty());
            assert(first + "\nBaseline commit: "@ + bench_report::link_of(repo, base@) + "\n\n"@
                =~= first + rest);
        } else {
            text::law_parts_of_a_text(Seq::empty(), first, "\n\n"@);
        }
    }
}

/// The command that reports results again names the candidate, then the baseline where there
/// is one, then the configuration where there is one.
pub proof fn law_command_names_what_was_reported(
    candidate: Seq<char>,
    baseline: Option<Seq<char>>,
    config_file: Option<&str>,
)
    ensures
        ({
            let asked = "cargo ci bench-report --candidate "@ + candidate;
            let command = bench_report::command_of(candidate, baseline, config_file);
            match (baseline, config_file) {
                (None, None) => command == asked,
                (Some(base), None) => command == asked + (" --baseline "@ + base),
                (None, Some(file)) => command == asked + (" --config-file "@ + file@),
                (Some(base), Some(file)) => command == asked + (" --baseline "@ + base) + (
                " --config-file "@ + file@),
            }
        }),
{
    let asked = "cargo ci bench-report --candidate "@ + candidate;
    let none = Seq::<char>::empty();
    assert(asked + none =~= asked);
    if let Some(base) = baseline {
        assert(asked + (" --baseline "@ + base) + none =~= asked + (" --baseline "@ + base));
    }
}

/// Runs come out with the latest first, whatever order they were listed in, and of those that
/// are equally late the one with the highest number.
pub proof fn law_latest_run_comes_first(runs: Seq<Run>, i: int, j: int)
    requires
        0 <= i < j < runs.len(),
    ensures
        ({
            let sorted = remote::newest_first(runs);
            &&& sorted.len() == runs.len()
            &&& !text::before(sorted[i].created_at@, sorted[j].created_at@)
            &&& sorted[i].created_at@ == sorted[j].created_at@ ==> sorted[i].id >= sorted[j].id
        }),
{
    broadcast use vstd::seq_lib::group_to_multiset_ensures;

    remote::law_runs_come_newest_first(runs);
    let sorted = remote::newest_first(runs);
    assert(sorted.to_multiset().len() == runs.to_multiset().len());
    assert(!remote::newer(sorted[j], sorted[i]));
}

/// Only runs that were listed are left, the first of them among these.
pub proof fn law_runs_left_were_listed(runs: Seq<Run>, i: int)
    requires
        0 <= i < remote::without_repeats(runs).len(),
    ensures
        remote::without_repeats(runs).len() <= runs.len(),
        runs.contains(remote::without_repeats(runs)[i]),
        remote::without_repeats(runs)[0] == runs[0],
    decreases runs.len(),
{
    let rest = runs.drop_last();
    let front = remote::without_repeats(rest);
    let left = remote::without_repeats(runs);
    if front.len() > 0 {
        let k = if i < front.len() {
            i
        } else {
            0
        };
        law_runs_left_were_listed(rest, k);
        let at = choose|at: int| 0 <= at < rest.len() && rest[at] == front[k];
        assert(runs[at] == front[k]);
    } else if rest.len() > 0 {
        law_listed_runs_are_left_under_their_number(rest, 0);
    }
    if i >= front.len() {
        assert(left[i] == runs[runs.len() - 1]);
    }
}

/// Every run that was listed is left, or another one with its number.
pub proof fn law_listed_runs_are_left_under_their_number(runs: Seq<Run>, i: int)
    requires
        0 <= i < runs.len(),
    ensures
        exists|k: int|
            0 <= k < remote::without_repeats(runs).len() && #[trigger] remote::without_repeats(
                runs,
            )[k].id == runs[i].id,
        remote::without_repeats(runs).len() > 0,
        remote::without_repeats(runs).last().id == runs.last().id,
    decreases runs.len(),
{
    let rest = runs.drop_last();
    let front = remote::without_repeats(rest);
    let left = remote::without_repeats(runs);
    if i < rest.len() {
        law_listed_runs_are_left_under_their_number(rest, i);
        let k = choose|k: int| 0 <= k < front.len() && #[trigger] front[k].id == rest[i].id;
        assert(left[k] == front[k]);
    } else {
        assert(left[left.len() - 1].id == runs[i].id);
    }
}

/// No run that is left follows one with its number.
pub proof fn law_no_run_follows_its_own_number(runs: Seq<Run>, i: int)
    requires
        0 < i < remote::without_repeats(runs).len(),
    ensures
        remote::without_repeats(runs)[i].id != remote::without_repeats(runs)[i - 1].id,
    decreases runs.len(),
{
    let front = remote::without_repeats(runs.drop_last());
    if i < front.len() {
        law_no_run_follows_its_own_number(runs.drop_last(), i);
    }
}

/// Runs that each differ in number from the one before are all left.
pub proof fn law_runs_without_repeats_are_left(runs: Seq<Run>)
    requires
        forall|i: int, j: int| 0 <= i && j == i + 1 && j < runs.len() ==> (#[trigger] runs[i]).id != (
        #[trigger] runs[j]).id,
    ensures
        remote::without_repeats(runs) == runs,
    decreases runs.len(),
{
    if runs.len() > 0 {
        let rest = runs.drop_last();
        assert forall|i: int, j: int| 0 <= i && j == i + 1 && j < rest.len() implies (
        #[trigger] rest[i]).id != (#[trigger] rest[j]).id by {
            assert(runs[i].id != runs[j].id);
        }
        law_runs_without_repeats_are_left(rest);
        if rest.len() > 0 {
            assert(runs[rest.len() - 1].id != runs[rest.len() as int].id);
        }
        assert(rest.push(runs.last()) =~= runs);
    }
}

/// However a clone url spells its host, and whether or not it ends in `.git`, it names the
/// owner and the name that it ends with.
pub proof fn law_clone_url_ends_with_owner_and_name(
    host: Seq<char>,
    first: char,
    owner: Seq<char>,
    second: char,
    name: Seq<char>,
    suffixed: bool,
)
    requires
        remote::separates(first),
        remote::separates(second),
        owner.len() > 0,
        name.len() > 0,
        forall|i: int| 0 <= i < owner.len() ==> !remote::separates(#[trigger] owner[i]),
        forall|i: int| 0 <= i < name.len() ==> !remote::separates(#[trigger] name[i]),
        host.len() > 0 ==> !text::is_space(host.first()),
        !text::is_space(first),
        !text::is_space(name.last()),
        !suffixed ==> !text::ends(host.push(first) + owner.push(second) + name, ".git"@),
    ensures
        remote::owner_and_name_of(
            host.push(first) + owner.push(second) + name + if suffixed {
                ".git"@
            } else {
                Seq::empty()
            },
        ) == Some(owner + "/"@ + name),
{
    reveal_strlit(".git");
    let bare = host.push(first) + owner.push(second) + name;
    let suffix = if suffixed {
        ".git"@
    } else {
        Seq::<char>::empty()
    };
    let url = bare + suffix;
    assert(url.first() == if host.len() > 0 {
        host.first()
    } else {
        first
    });
    assert(url.last() == if suffixed {
        't'
    } else {
        name.last()
    });
    assert(name[name.len() - 1] == name.last());
    text::law_text_without_space_around_it_is_kept(url);
    assert(text::trim_end_of(url, |c: char| c == '/') == url);
    if suffixed {
        text::law_parts_of_a_text(bare, ".git"@, Seq::empty());
        assert(url.take(url.len() - 4) =~= bare);
    } else {
        assert(url =~= bare);
    }
    assert(remote::url_path(url) == bare);
    let front = host.push(first) + owner;
    assert(bare =~= front.push(second) + name);
    lemma_last_part(front, second, name);
    assert(front =~= host.push(first) + owner);
    lemma_last_part(host, first, owner);
}

/// The last part of a text is what follows its last separator.
proof fn lemma_last_part(front: Seq<char>, separator: char, part: Seq<char>)
    requires
        remote::separates(separator),
        forall|i: int| 0 <= i < part.len() ==> !remote::separates(#[trigger] part[i]),
    ensures
        remote::last_part(front.push(separator) + part) == (Some(front), part),
    decreases part.len(),
{
    let s = front.push(separator) + part;
    if part.len() == 0 {
        assert(s.drop_last() =~= front);
    } else {
        assert(s.drop_last() =~= front.push(separator) + part.drop_last());
        assert(part[part.len() - 1] == s.last());
        assert forall|i: int| 0 <= i < part.drop_last().len() implies !remote::separates(
            #[trigger] part.drop_last()[i],
        ) by {
            assert(part.drop_last()[i] == part[i]);
        }
        lemma_last_part(front, separator, part.drop_last());
        assert(part.drop_last().push(part.last()) =~= part);
    }
}

/// An owner or a name that is found holds no separator but the one between them.
pub proof fn law_found_owner_and_name_are_single_parts(url: Seq<char>)
    ensures
        remote::owner_and_name_of(url) matches Some(found) ==> exists|
            owner: Seq<char>,
            name: Seq<char>,
        |
            {
                &&& #[trigger] (owner + "/"@ + name) == found
                &&& owner.len() > 0
                &&& name.len() > 0
                &&& forall|i: int| 0 <= i < owner.len() ==> !remote::separates(#[trigger] owner[i])
                &&& forall|i: int| 0 <= i < name.len() ==> !remote::separates(#[trigger] name[i])
            },
{
    let path = remote::url_path(url);
    lemma_part_is_single(path);
    if let Some(front) = remote::last_part(path).0 {
        lemma_part_is_single(front);
    }
}

proof fn lemma_part_is_single(s: Seq<char>)
    ensures
        forall|i: int|
            0 <= i < remote::last_part(s).1.len() ==> !remote::separates(
                #[trigger] remote::last_part(s).1[i],
            ),
    decreases s.len(),
{
    if s.len() > 0 && !remote::separates(s.last()) {
        lemma_part_is_single(s.drop_last());
        let earlier = remote::last_part(s.drop_last()).1;
        let part = remote::last_part(s).1;
        assert(part == earlier.push(s.last()));
        assert forall|i: int| 0 <= i < part.len() implies !remote::separates(
            #[trigger] part[i],
        ) by {
            if i < earlier.len() {
                assert(part[i] == earlier[i]);
            }
        }
    }
}

/// The lines of a text are what stands before, between and behind its line breaks, without
/// the carriage returns before them.
pub proof fn law_lines_stand_between_line_breaks(line: Seq<char>, rest: Seq<char>)
    requires
        !line.contains('\n'),
    ensures
        names::lines_of(line.push('\n') + rest) == seq![names::without_return(line)]
            + names::lines_of(rest),
        names::lines_of(line) == if line.len() == 0 {
            Seq::<Seq<char>>::empty()
        } else {
            seq![line]
        },
        names::without_return(line.push('\r')) == line,
        line.len() > 0 && line.last() != '\r' ==> names::without_return(line) == line,
{
    lemma_splits(line, rest, '\n');
    text::law_split_parts_make_up_the_text(line, '\n');
    if let Some((a, b)) = text::split_once_of(line, '\n') {
        assert(line[a.len() as int] == '\n');
    }
    assert(line.push('\r').drop_last() =~= line);
}

/// The value of a key is that of the first line that gives it one, without white space around
/// it.
pub proof fn law_first_line_with_a_key_gives_its_value(
    others: Seq<Seq<char>>,
    name: Seq<char>,
    value: Seq<char>,
    rest: Seq<Seq<char>>,
    key: Seq<char>,
)
    requires
        forall|i: int|
            0 <= i < others.len() ==> manifest::line_value(#[trigger] others[i], key) is None,
        !name.contains(':'),
        text::trim_of(name) == key,
    ensures
        manifest::field_of(others.push(name.push(':') + value) + rest, key) == Some(
            text::trim_of(value),
        ),
        manifest::field_of(others, key) is None,
    decreases others.len(),
{
    let line = name.push(':') + value;
    let all = others.push(line) + rest;
    lemma_splits(name, value, ':');
    if others.len() == 0 {
        assert(all[0] == line);
    } else {
        let fewer = others.drop_first();
        assert forall|i: int| 0 <= i < fewer.len() implies manifest::line_value(
            #[trigger] fewer[i],
            key,
        ) is None by {
            assert(fewer[i] == others[i + 1]);
        }
        law_first_line_with_a_key_gives_its_value(fewer, name, value, rest, key);
        assert(manifest::line_value(others[0], key) is None);
        assert(all[0] == others[0]);
        assert(all.drop_first() =~= fewer.push(line) + rest);
    }
}

/// A line gives a key a value only where it stands before the line's first colon.
pub proof fn law_line_gives_its_own_key_a_value(line: Seq<char>, key: Seq<char>)
    ensures
        manifest::line_value(line, key) is Some <==> (text::split_once_of(line, ':') matches Some(
            (name, _),
        ) && text::trim_of(name) == key),
        !line.contains(':') ==> manifest::line_value(line, key) is None,
{
    text::law_split_parts_make_up_the_text(line, ':');
    if let Some((a, b)) = text::split_once_of(line, ':') {
        assert(line[a.len() as int] == ':');
    }
}

/// A processor identifier ends with its vendor, behind the last comma.
pub proof fn law_identifier_ends_with_the_vendor(front: Seq<char>, vendor: Seq<char>)
    requires
        !vendor.contains(','),
    ensures
        manifest::identifier_vendor_of(front.push(',') + vendor) == Some(text::trim_of(vendor)),
        manifest::identifier_vendor_of(vendor) is None,
{
    lemma_splits_last(front, vendor, ',');
    text::law_split_parts_make_up_the_text(vendor, ',');
    if let Some((a, b)) = text::rsplit_once_of(vendor, ',') {
        assert(vendor[a.len() as int] == ',');
    }
}

/// A benchmark is left out where the denylist matches it, whatever the allowlist says, and
/// where there is an allowlist that does not match it; every other one is selected.
pub proof fn law_denylist_prevails(
    allow: Seq<Seq<char>>,
    deny: Seq<Seq<char>>,
    i: int,
    benchmark: Seq<char>,
)
    ensures
        0 <= i < deny.len() && config::pattern_matches(deny[i], benchmark) ==> !config::selects(
            allow,
            deny,
            benchmark,
        ),
        0 <= i < allow.len() && config::pattern_matches(allow[i], benchmark)
            && !config::any_matches(deny, benchmark) ==> config::selects(allow, deny, benchmark),
        allow.len() > 0 && (forall|k: int|
            0 <= k < allow.len() ==> !config::pattern_matches(#[trigger] allow[k], benchmark))
            ==> !config::selects(allow, deny, benchmark),
        allow.len() == 0 && deny.len() == 0 ==> config::selects(allow, deny, benchmark),
{
    if 0 <= i < deny.len() && config::pattern_matches(deny[i], benchmark) {
        assert(config::any_matches(deny, benchmark));
    }
    if 0 <= i < allow.len() && config::pattern_matches(allow[i], benchmark) {
        assert(config::any_matches(allow, benchmark));
    }
}

/// The selection holds the benchmarks that are selected and no others.
pub proof fn law_selection_holds_what_is_selected(
    allow: Seq<Seq<char>>,
    deny: Seq<Seq<char>>,
    benchmarks: Seq<Seq<char>>,
    benchmark: Seq<char>,
)
    ensures
        config::selection(allow, deny, benchmarks).contains(benchmark) <==> benchmarks.contains(
            benchmark,
        ) && config::selects(allow, deny, benchmark),
        config::selection(allow, deny, benchmarks).len() <= benchmarks.len(),
{
    let pick = |b: Seq<char>| config::selects(allow, deny, b);
    benchmarks.lemma_filter_len(pick);
    lemma_filter_members(benchmarks, pick, benchmark);
}

/// What is filtered from texts are those of them that are picked.
proof fn lemma_filter_members(
    texts: Seq<Seq<char>>,
    pick: spec_fn(Seq<char>) -> bool,
    text: Seq<char>,
)
    ensures
        texts.filter(pick).contains(text) <==> texts.contains(text) && pick(text),
    decreases texts.len(),
{
    reveal(Seq::filter);
    if texts.len() > 0 {
        let rest = texts.drop_last();
        let last = texts.last();
        lemma_filter_members(rest, pick, text);
        assert(texts =~= rest.push(last));
        names::lemma_push_contains(rest, last, text);
        names::lemma_push_contains(rest.filter(pick), last, text);
    }
}

/// A pattern is stale exactly where it matches no benchmark.
pub proof fn law_stale_patterns_match_nothing(
    allow: Seq<Seq<char>>,
    benchmarks: Seq<Seq<char>>,
    pattern: Seq<char>,
)
    ensures
        config::stale(allow, benchmarks).contains(pattern) <==> allow.contains(pattern)
            && forall|i: int|
            0 <= i < benchmarks.len() ==> !config::pattern_matches(
                pattern,
                #[trigger] benchmarks[i],
            ),
{
    let drop = |p: Seq<char>| !config::used(p, benchmarks);
    lemma_filter_members(allow, drop, pattern);
}

/// Joined texts follow each other with the separator between them, and only there.
pub proof fn law_separator_stands_between_texts(
    texts: Seq<Seq<char>>,
    last: Seq<char>,
    separator: Seq<char>,
)
    ensures
        config::joined(seq![last], separator) == last,
        texts.len() > 0 ==> config::joined(texts.push(last), separator) == config::joined(
            texts,
            separator,
        ) + separator + last,
        config::joined(Seq::empty(), separator).len() == 0,
{
    assert(texts.push(last).drop_last() =~= texts);
}

/// The helper's executable is the one that a build message reports for it, whatever other
/// messages report; the first such message counts.
pub proof fn law_first_report_of_the_helper_counts(
    others: Seq<Seq<char>>,
    line: Seq<char>,
    rest: Seq<Seq<char>>,
)
    requires
        forall|i: int|
            0 <= i < others.len() ==> ballast::line_executable(#[trigger] others[i]) is None,
    ensures
        ballast::first_executable(others) is None,
        ballast::line_executable(line) is Some ==> ballast::first_executable(
            others.push(line) + rest,
        ) == ballast::line_executable(line),
    decreases others.len(),
{
    let all = others.push(line) + rest;
    if others.len() == 0 {
        assert(all[0] == line);
    } else {
        let fewer = others.drop_first();
        assert forall|i: int| 0 <= i < fewer.len() implies ballast::line_executable(
            #[trigger] fewer[i],
        ) is None by {
            assert(fewer[i] == others[i + 1]);
        }
        law_first_report_of_the_helper_counts(fewer, line, rest);
        assert(ballast::line_executable(others[0]) is None);
        assert(all[0] == others[0]);
        assert(all.drop_first() =~= fewer.push(line) + rest);
    }
}

/// A build message reports the helper's executable only where it is about an artifact, and
/// about the helper's.
pub proof fn law_only_the_helper_is_reported(
    reason: Option<Seq<char>>,
    target: Option<Seq<char>>,
    executable: Option<Seq<char>>,
)
    ensures
        reason != Some("compiler-artifact"@) || target != Some("ballast"@) ==> ballast::reported(
            reason,
            target,
            executable,
        ) is None,
        ballast::reported(Some("compiler-artifact"@), Some("ballast"@), executable) == executable,
{
}

} // verus!
