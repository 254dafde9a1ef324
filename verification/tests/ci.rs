//! The continuous-integration tools.

use hyperlight::ci::ballast::{find_executable, is_ready, reported_executable};
use hyperlight::ci::bench_report::{
    baseline_for, baseline_source, canonical_hypervisor, describe, measured, pinned_release,
    pinned_run, reproduce, title, Comparison, Identity, Input, Origin, Source,
};
use hyperlight::ci::config::{BenchConfig, ConfigError};
use hyperlight::ci::manifest::{cpu_vendor_and_model, identifier_vendor, Host, Manifest};
use hyperlight::text::trim;
use hyperlight::ci::remote::{
    artifact_label, artifact_names, asset_label, asset_names, descends, owner_and_name,
    pull_request_refs, repository, Artifact, Repository, Run, RunListing, RunSearch,
};

#[test]
fn names_a_configuration_after_its_artifact() {
    assert_eq!(describe("Linux_kvm_amd"), "kvm / amd (Linux)");
    assert_eq!(
        describe("Windows_hyperv-ws2025_intel"),
        "hyperv-ws2025 / intel (Windows)"
    );
}

#[test]
fn keeps_a_name_it_cannot_read() {
    assert_eq!(describe("whatever"), "whatever");
    assert_eq!(describe("Linux_kvm"), "Linux_kvm");
}

#[test]
fn titles_carry_both_the_summary_and_the_configuration() {
    assert_eq!(title(None, None), None);
    assert_eq!(title(Some("PR 1529"), None).as_deref(), Some("PR 1529"));
    assert_eq!(
        title(None, Some("Linux_kvm_amd")).as_deref(),
        Some("kvm / amd (Linux)")
    );
    assert_eq!(
        title(Some("PR 1529"), Some("Linux_kvm_amd")).as_deref(),
        Some("PR 1529 kvm / amd (Linux)")
    );
}

#[test]
fn reads_the_repository_a_clone_url_ends_with() {
    for url in [
        "git@github.com:hyperlight-dev/hyperlight.git",
        "https://github.com/hyperlight-dev/hyperlight.git",
        "https://github.com/hyperlight-dev/hyperlight",
        "ssh://git@github.com/hyperlight-dev/hyperlight.git",
        "  git@github.com:hyperlight-dev/hyperlight.git\n",
    ] {
        assert_eq!(
            owner_and_name(url).as_deref(),
            Some("hyperlight-dev/hyperlight"),
            "{url}"
        );
    }
}

#[test]
fn a_url_without_an_owner_names_no_repository() {
    assert_eq!(owner_and_name("hyperlight"), None);
    assert_eq!(owner_and_name("/hyperlight"), None);
    assert_eq!(owner_and_name(""), None);
    assert_eq!(owner_and_name("owner/name/").as_deref(), Some("owner/name"));
}

#[test]
fn keeps_a_repository_named_outright() {
    assert!(matches!(
        repository("hyperlight-dev/hyperlight"),
        Repository::Named(name) if name == "hyperlight-dev/hyperlight"
    ));
}

#[test]
fn follows_a_named_remote() {
    assert!(matches!(
        repository("remote:origin"),
        Repository::Remote(remote) if remote == "origin"
    ));
}

fn source(value: &str) -> Source {
    match Source::from_str(value) {
        Ok(source) => source,
        Err(message) => panic!("{message}"),
    }
}

#[test]
fn reads_every_kind_of_source() {
    assert!(matches!(source("run:12"), Source::Run(12)));
    assert!(matches!(source("pr:+7"), Source::PullRequest(7)));
    assert!(matches!(source("base-of:3"), Source::BaseOf(3)));
    assert!(matches!(source("commit:abc:d"), Source::Commit(c) if c == "abc:d"));
    assert!(matches!(source("release:v1"), Source::Release(tag) if tag == "v1"));
    assert!(matches!(source("target/criterion"), Source::Dir(d) if d == "target/criterion"));
    assert!(matches!(source("C:\\results"), Source::Dir(d) if d == "C:\\results"));
}

#[test]
fn rejects_a_source_without_its_number() {
    for (value, message) in [
        ("run:x", "`x` is not a run number"),
        ("pr:", "`` is not a pr number"),
        ("base-of:-1", "`-1` is not a base-of number"),
        (
            "run:18446744073709551616",
            "`18446744073709551616` is not a run number",
        ),
    ] {
        match Source::from_str(value) {
            Err(error) => assert_eq!(error, message),
            Ok(_) => panic!("{value} was accepted"),
        }
    }
    assert!(matches!(
        source("run:18446744073709551615"),
        Source::Run(u64::MAX)
    ));
}

#[test]
fn pinned_sources_read_back() {
    assert_eq!(pinned_run(1207), "run:1207");
    assert_eq!(pinned_run(0), "run:0");
    assert!(matches!(source(&pinned_run(1207)), Source::Run(1207)));
    assert_eq!(pinned_release("v1:2"), "release:v1:2");
    assert!(matches!(source(&pinned_release("v1:2")), Source::Release(t) if t == "v1:2"));
}

fn host(os: &str, vendor: Option<&str>, hypervisor: Option<&str>) -> Host {
    Host {
        os: os.to_string(),
        arch: "x86_64".to_string(),
        logical_cpus: None,
        cpu_vendor: vendor.map(str::to_string),
        cpu_model: None,
        hypervisor: hypervisor.map(str::to_string),
    }
}

#[test]
fn reads_an_identity_from_a_label() {
    let identity = Identity::from_label("Linux_mshv3_AMD").unwrap();
    assert_eq!(identity.os, "linux");
    assert_eq!(identity.vendor, "amd");
    assert_eq!(identity.hypervisor.as_deref(), Some("mshv"));

    let identity = Identity::from_label("Windows_hyperv-ws2025_intel").unwrap();
    assert_eq!(identity.hypervisor.as_deref(), Some("whp"));
    assert!(Identity::from_label("Linux_kvm").is_none());
    assert_eq!(canonical_hypervisor("linux", "kvm"), "kvm");
}

#[test]
fn reads_an_identity_from_a_host() {
    let identity =
        Identity::from_host(&host("linux", Some("GenuineIntel"), Some("mshv3"))).unwrap();
    assert_eq!(identity.vendor, "intel");
    assert_eq!(identity.hypervisor.as_deref(), Some("mshv"));
    let identity = Identity::from_host(&host("linux", Some("AuthenticAMD"), None)).unwrap();
    assert_eq!(identity.vendor, "amd");
    assert_eq!(identity.hypervisor, None);
    assert!(Identity::from_host(&host("linux", Some("Other"), None)).is_none());
    assert!(Identity::from_host(&host("linux", None, None)).is_none());
}

#[test]
fn matching_ignores_what_is_not_said() {
    let full = Identity::from_label("Linux_kvm_amd").unwrap();
    let other = Identity::from_label("Linux_mshv3_amd").unwrap();
    let open = Identity::from_host(&host("linux", Some("AMD"), None)).unwrap();
    assert!(full.matches(&full));
    assert!(!full.matches(&other) && !other.matches(&full));
    assert!(full.matches(&open) && open.matches(&other));
    assert!(!full.matches(&Identity::from_label("Linux_kvm_intel").unwrap()));
    assert!(!full.matches(&Identity::from_label("Windows_kvm_amd").unwrap()));
}

fn input(label: Option<&str>, host: Option<Identity>) -> Input {
    Input {
        label: label.map(str::to_string),
        dir: "somewhere".to_string(),
        host,
    }
}

fn labelled(label: &str) -> Input {
    input(Some(label), Identity::from_label(label))
}

#[test]
fn picks_the_baseline_that_fits() {
    let baselines = [labelled("Linux_kvm_amd"), labelled("Linux_kvm_intel")];
    assert!(matches!(
        baseline_for(&baselines, &labelled("Linux_kvm_intel")),
        Comparison::Against(1)
    ));
    assert!(matches!(
        baseline_for(&[], &labelled("Linux_kvm_intel")),
        Comparison::Alone
    ));
    assert!(matches!(
        baseline_for(&baselines, &input(None, None)),
        Comparison::Alone
    ));
    assert!(matches!(
        baseline_for(&[input(None, None)], &labelled("Linux_kvm_intel")),
        Comparison::Against(0)
    ));
    assert!(matches!(
        baseline_for(&baselines, &labelled("Windows_x_amd")),
        Comparison::Unmatched(what) if what == "x / amd (Windows)"
    ));
}

#[test]
fn several_fitting_baselines_are_reported_alone() {
    let baselines = [labelled("Linux_kvm_amd"), labelled("Linux_mshv3_amd")];
    let candidate = input(
        None,
        Identity::from_host(&host("linux", Some("AuthenticAMD"), None)),
    );
    assert!(matches!(
        baseline_for(&baselines, &candidate),
        Comparison::Several(what) if what == "these results"
    ));
}

#[test]
fn a_pull_request_is_compared_with_where_it_branched() {
    assert!(matches!(
        baseline_source(None, &Source::PullRequest(9)),
        Some(Source::BaseOf(9))
    ));
    assert!(baseline_source(None, &Source::Run(9)).is_none());
    assert!(matches!(
        baseline_source(Some(Source::Run(1)), &Source::PullRequest(9)),
        Some(Source::Run(1))
    ));
}

fn origin(commit: Option<&str>, pinned: &str, inputs: Vec<Input>) -> Origin {
    Origin {
        commit: commit.map(str::to_string),
        pinned: pinned.to_string(),
        inputs,
    }
}

#[test]
fn says_which_commits_were_measured() {
    let candidate = origin(Some("0123456789abcdef"), "run:2", vec![]);
    let baseline = origin(Some("short"), "run:1", vec![]);
    assert_eq!(
        measured("o/n", &candidate, &baseline).as_deref(),
        Some(
            "Measured commit: [`0123456789ab`](https://github.com/o/n/commit/0123456789abcdef)\n\
             Baseline commit: [`short`](https://github.com/o/n/commit/short)\n\n"
        )
    );
    assert_eq!(
        measured("o/n", &baseline, &Origin::empty()).as_deref(),
        Some("Measured commit: [`short`](https://github.com/o/n/commit/short)\n\n")
    );
    assert_eq!(measured("o/n", &Origin::empty(), &candidate), None);
}

#[test]
fn shortens_a_commit_only_at_a_character() {
    let candidate = origin(Some("0123456789a\u{e9}bc"), "run:2", vec![]);
    let line = measured("o/n", &candidate, &Origin::empty()).unwrap();
    assert!(line.starts_with("Measured commit: [`0123456789a\u{e9}bc`]"), "{line}");
    let candidate = origin(Some("0123456789\u{e9}bc"), "run:2", vec![]);
    let line = measured("o/n", &candidate, &Origin::empty()).unwrap();
    assert!(line.starts_with("Measured commit: [`0123456789\u{e9}`]"), "{line}");
}

#[test]
fn says_how_to_ask_again() {
    let candidate = origin(None, "run:2", vec![]);
    let baseline = origin(None, "run:1", vec![labelled("Linux_kvm_amd")]);
    assert_eq!(
        reproduce(Some("bench.toml"), &candidate, &baseline),
        "\n<sub>Reported by `cargo ci bench-report --candidate run:2 --baseline run:1 \
         --config-file bench.toml`.</sub>\n"
    );
    assert_eq!(
        reproduce(None, &candidate, &Origin::empty()),
        "\n<sub>Reported by `cargo ci bench-report --candidate run:2`.</sub>\n"
    );
}

#[test]
fn a_baseline_without_results_measures_nothing() {
    let baseline = origin(
        Some("abc"),
        "run:1",
        vec![labelled("Linux_kvm_amd"), labelled("Linux_kvm_intel")],
    );
    let settled = baseline.settle(&vec![false, true]);
    assert_eq!(settled.inputs.len(), 1);
    assert_eq!(settled.inputs[0].label.as_deref(), Some("Linux_kvm_intel"));
    assert_eq!(settled.commit.as_deref(), Some("abc"));
    let settled = settled.settle(&vec![false]);
    assert!(settled.inputs.is_empty());
    assert_eq!(settled.commit, None);
    assert_eq!(settled.pinned, "run:1");
}

fn artifact(name: &str, expired: bool) -> Artifact {
    Artifact {
        name: name.to_string(),
        expired,
    }
}

#[test]
fn lists_the_artifacts_that_still_hold_results() {
    let list = vec![
        artifact("benchmarks_b", false),
        artifact("benchmarks_a", false),
        artifact("logs", false),
        artifact("benchmarks_c", true),
        artifact("benchmarks_b", false),
    ];
    assert_eq!(artifact_names(&list), ["benchmarks_a", "benchmarks_b"]);
    assert_eq!(artifact_label("benchmarks_Linux_kvm_amd"), "Linux_kvm_amd");
}

#[test]
fn lists_the_archives_of_a_release() {
    assert_eq!(
        asset_names("benchmarks_b.tar.gz\r\nother.tar.gz\nbenchmarks_a.tar.gz\nbenchmarks_c.zip\n"),
        ["benchmarks_a.tar.gz", "benchmarks_b.tar.gz"]
    );
    assert_eq!(asset_label("benchmarks_Linux_kvm_amd.tar.gz"), "Linux_kvm_amd");
    assert_eq!(asset_label("benchmarks_.tar.gz"), "");
}

#[test]
fn reads_what_a_comparison_says() {
    assert!(descends("identical\n"));
    assert!(descends(" ahead"));
    assert!(!descends("behind"));
    assert!(!descends("diverged"));
    let (base, head) = pull_request_refs(" main 0123 4\n").unwrap();
    assert_eq!((base.as_str(), head.as_str()), ("main", "0123 4"));
    assert!(pull_request_refs("main\n").is_none());
}

fn run(id: u64, created_at: &str) -> Run {
    Run {
        id,
        head_sha: format!("sha{id}"),
        created_at: created_at.to_string(),
    }
}

#[test]
fn asks_until_two_replies_agree() {
    let mut listing = RunListing::new();
    assert!(listing.wants_more());
    listing.take(vec![run(1, "2025-01-01")]);
    assert!(listing.wants_more());
    listing.take(vec![run(3, "2025-03-01"), run(1, "2025-01-01")]);
    assert!(listing.wants_more());
    listing.take(vec![
        run(3, "2025-03-01"),
        run(2, "2025-01-01"),
        run(1, "2025-01-01"),
    ]);
    assert!(!listing.wants_more());
    let runs = listing.finish();
    assert_eq!(runs.iter().map(|run| run.id).collect::<Vec<_>>(), [3, 2, 1]);
    assert_eq!(runs[0].head_sha, "sha3");
}

#[test]
fn stops_asking_after_a_while() {
    let mut listing = RunListing::new();
    let mut asked = 0;
    while listing.wants_more() {
        listing.take(vec![]);
        asked += 1;
    }
    assert_eq!(asked, 5);
    assert!(listing.finish().is_empty());
}

#[test]
fn searches_runs_one_by_one() {
    let mut search = RunSearch::new(vec![run(3, "c"), run(2, "b"), run(1, "a")]);
    assert_eq!(search.candidate().unwrap().id, 3);
    search.answer(false);
    assert_eq!(search.candidate().unwrap().id, 2);
    search.answer(true);
    assert!(search.candidate().is_none());
    assert_eq!(search.found, Some(2));
    let mut search = RunSearch::new(vec![run(3, "c")]);
    search.answer(false);
    assert!(search.candidate().is_none());
    assert_eq!(search.found, None);
}

fn names(names: &[&str]) -> Vec<String> {
    names.iter().map(|name| name.to_string()).collect()
}

fn config(allow: &[&str], deny: &[&str]) -> BenchConfig {
    match BenchConfig::new(&names(allow), &names(deny), None, None, None) {
        Ok(config) => config,
        Err(_) => panic!("the patterns do not compile"),
    }
}

fn selected(config: &BenchConfig, benchmarks: &[&str]) -> Vec<String> {
    match config.select(names(benchmarks)) {
        Ok(selected) => selected,
        Err(error) => panic!("{:?}", error.message()),
    }
}

fn selection_error(config: &BenchConfig, benchmarks: &[&str]) -> String {
    match config.select(names(benchmarks)) {
        Ok(_) => panic!("the selection was accepted"),
        Err(error) => error.message().unwrap(),
    }
}

#[test]
fn selects_only_allowlisted_benchmarks() {
    let config = config(&["^sandboxes/", "^guest_calls/"], &[]);
    let selected = selected(
        &config,
        &["sandboxes/create", "snapshots/save", "guest_calls/small"],
    );
    assert_eq!(selected, ["sandboxes/create", "guest_calls/small"]);
}

#[test]
fn denylist_subtracts_from_the_allowlist() {
    let config = config(&["^sandboxes/"], &["^sandboxes/noisy"]);
    let selected = selected(&config, &["sandboxes/create", "sandboxes/noisy_case"]);
    assert_eq!(selected, ["sandboxes/create"]);
}

#[test]
fn empty_allowlist_keeps_everything_not_denied() {
    let config = config(&[], &["^snapshots/"]);
    let selected = selected(&config, &["sandboxes/create", "snapshots/save"]);
    assert_eq!(selected, ["sandboxes/create"]);
}

#[test]
fn rejects_allowlist_patterns_matching_nothing() {
    let config = config(&["^sandboxes/", "^renamed_away/"], &[]);
    let error = selection_error(&config, &["sandboxes/create"]);
    assert!(error.contains("^renamed_away/"), "{error}");
    assert!(!error.contains("^sandboxes/"), "{error}");
}

#[test]
fn names_every_stale_pattern() {
    let config = config(&["^a", "^b", "^c"], &[]);
    assert_eq!(
        selection_error(&config, &["b"]),
        "Benchmark allowlist patterns match no benchmark: ^a, ^c"
    );
}

#[test]
fn accepts_denylist_patterns_matching_nothing() {
    let config = config(&["^sandboxes/"], &["^windows_only/"]);
    assert_eq!(
        selected(&config, &["sandboxes/create"]),
        ["sandboxes/create"]
    );
}

#[test]
fn rejects_a_config_that_excludes_everything() {
    let config = config(&["^sandboxes/"], &["^sandboxes/"]);
    let error = selection_error(&config, &["sandboxes/create"]);
    assert!(error.contains("excludes every benchmark"), "{error}");
}

#[test]
fn config_without_keys_keeps_every_benchmark() {
    let config = config(&[], &[]);
    assert!(!config.filters());
    assert_eq!(
        selected(&config, &["sandboxes/create", "snapshots/save"]),
        ["sandboxes/create", "snapshots/save"]
    );
    assert!(selected(&config, &[]).is_empty());
}

#[test]
fn empty_lists_keep_every_benchmark() {
    let config = config(&[], &[]);
    assert_eq!(
        selected(&config, &["sandboxes/create", "snapshots/save"]),
        ["sandboxes/create", "snapshots/save"]
    );
}

#[test]
fn rejects_invalid_pattern() {
    match BenchConfig::new(&names(&["^sandboxes/("]), &names(&[]), None, None, None) {
        Err(ConfigError::Pattern(error)) => {
            assert!(error.to_string().contains("regex parse error"), "{error}")
        }
        _ => panic!("the pattern was accepted"),
    }
    assert!(BenchConfig::new(&names(&[]), &names(&["("]), None, None, None).is_err());
}

#[test]
fn keeps_the_settings_it_was_given() {
    let config = BenchConfig::new(
        &names(&[]),
        &names(&[]),
        Some("o/n".to_string()),
        Some(4),
        Some(true),
    );
    let config = match config {
        Ok(config) => config,
        Err(_) => panic!("no pattern to reject"),
    };
    assert_eq!(config.repo.as_deref(), Some("o/n"));
    assert_eq!(config.summary_limit, Some(4));
    assert_eq!(config.reproduce, Some(true));
}

#[test]
fn reads_the_processor_listing() {
    let (vendor, model) = cpu_vendor_and_model(
        "processor\t: 0\nvendor_id\t: GenuineIntel\nmodel name\t: Some CPU: fast \nvendor_id : Other\n",
    );
    assert_eq!(vendor.as_deref(), Some("GenuineIntel"));
    assert_eq!(model.as_deref(), Some("Some CPU: fast"));
    assert_eq!(cpu_vendor_and_model("nothing\n"), (None, None));
    assert_eq!(
        identifier_vendor("Intel64 Family 6 Model 154 Stepping 3, GenuineIntel").as_deref(),
        Some("GenuineIntel")
    );
    assert_eq!(identifier_vendor("Intel64"), None);
}

#[test]
fn a_manifest_lists_its_benchmarks_in_order() {
    let manifest = Manifest::new(7, host("linux", None, None), names(&["b", "a/2", "a", "b"]));
    assert_eq!(manifest.benchmarks, ["a", "a/2", "b", "b"]);
    assert_eq!(manifest.timestamp, 7);
}

#[test]
fn recognizes_the_ready_line() {
    assert!(is_ready("ballast ready\n"));
    assert!(!is_ready("ballast"));
}

#[test]
fn finds_the_executable_in_build_messages() {
    let lines = names(&[
        "not json",
        r#"{"reason":"compiler-artifact","target":{"name":"other"},"executable":"/x"}"#,
        r#"{"reason":"compiler-artifact","target":{"name":"ballast"},"executable":null}"#,
        r#"{"reason":"build-finished","target":{"name":"ballast"},"executable":"/y"}"#,
        r#"{"reason":"compiler-artifact","target":{"name":"ballast"},"executable":"/bin/ballast"}"#,
        r#"{"reason":"compiler-artifact","target":{"name":"ballast"},"executable":"/z"}"#,
    ]);
    assert_eq!(find_executable(&lines).as_deref(), Some("/bin/ballast"));
    assert_eq!(find_executable(&lines[..4].to_vec()), None);
    assert_eq!(
        reported_executable(
            Some("compiler-artifact".to_string()),
            Some("ballast".to_string()),
            Some("/e".to_string())
        )
        .as_deref(),
        Some("/e")
    );
}

#[test]
fn every_kind_of_white_space_is_trimmed() {
    for space in [
        '\t', '\n', '\u{b}', '\u{c}', '\r', ' ', '\u{85}', '\u{a0}', '\u{1680}', '\u{2000}',
        '\u{200a}', '\u{2028}', '\u{2029}', '\u{202f}', '\u{205f}', '\u{3000}',
    ] {
        assert_eq!(trim(&[space, 'a', space, 'b', space]), ['a', space, 'b']);
    }
    for other in ['\u{8}', '\u{e}', '\u{180e}', '\u{200b}', '\u{feff}'] {
        assert_eq!(trim(&[other, 'a']), [other, 'a']);
    }
    let spaces: Vec<char> = ('\0'..=char::MAX)
        .filter(|c| trim(&[*c]).is_empty())
        .collect();
    assert_eq!(spaces.len(), 25);
}
