//! Tests of the classification, aggregation and resolution stages, and of
//! the pipeline end to end: tags and commit messages in, a version string
//! or the no-release condition out.

use next_version::aggregate::{aggregate_messages, BumpAggregate};
use next_version::classify::{classify, default_patterns, BumpPatterns, BumpSignal};
use next_version::parse::parse;
use next_version::resolve::{can_resolve, resolve};
use next_version::version::SemanticVersion;

fn base(s: &str) -> SemanticVersion {
    parse(s).expect("expected a valid base version")
}

fn messages(texts: &[&str]) -> Vec<String> {
    texts.iter().map(|s| s.to_string()).collect()
}

fn run(base_text: &str, texts: &[&str]) -> Option<String> {
    let b = base(base_text);
    let agg = aggregate_messages(&messages(texts), &default_patterns());
    assert!(can_resolve(&b, &agg));
    resolve(&b, &agg).map(|v| v.version_string())
}

#[test]
fn classifier_matches_markers() {
    let pats = default_patterns();
    assert_eq!(classify("patch: adjust threshold", &pats), BumpSignal::Patch);
    assert_eq!(classify("minor: new endpoint", &pats), BumpSignal::Minor);
    assert_eq!(classify("major: breaking change", &pats), BumpSignal::Major);
    assert_eq!(classify("docs update", &pats), BumpSignal::NoBump);
}

#[test]
fn classifier_prefers_major_over_minor() {
    let pats = default_patterns();
    let both = "major: rewrite, minor: also adds an endpoint";
    assert_eq!(classify(both, &pats), BumpSignal::Major);
    let minor_and_patch = "minor: endpoint, patch: typo";
    assert_eq!(classify(minor_and_patch, &pats), BumpSignal::Minor);
}

#[test]
fn classifier_takes_caller_patterns() {
    let pats = BumpPatterns {
        major: "BREAKING".to_string(),
        minor: "feat".to_string(),
        patch: "fix".to_string(),
    };
    assert_eq!(classify("feat: add exporter", &pats), BumpSignal::Minor);
    assert_eq!(classify("fix leak", &pats), BumpSignal::Patch);
    assert_eq!(classify("BREAKING: drop v1 api", &pats), BumpSignal::Major);
}

#[test]
fn aggregate_counts_and_flags() {
    let pats = default_patterns();
    let agg = aggregate_messages(
        &messages(&["fix bug", "patch: one", "minor: two", "docs"]),
        &pats,
    );
    assert_eq!(agg.objects_visited, 4);
    assert!(!agg.major);
    assert!(agg.minor);
    assert!(agg.patch);
}

#[test]
fn aggregate_is_order_insensitive() {
    let pats = default_patterns();
    let a = aggregate_messages(
        &messages(&["patch: one", "docs", "major: big", "minor: small"]),
        &pats,
    );
    let b = aggregate_messages(
        &messages(&["minor: small", "major: big", "docs", "patch: one"]),
        &pats,
    );
    assert_eq!(a, b);
}

#[test]
fn record_keeps_flags_and_counts() {
    let mut agg = BumpAggregate::new();
    assert_eq!(agg.objects_visited, 0);
    agg.record(BumpSignal::Major);
    agg.record(BumpSignal::NoBump);
    assert_eq!(agg.objects_visited, 2);
    assert!(agg.major);
    assert!(!agg.minor && !agg.patch);
}

#[test]
fn three_commits_one_patch_marker() {
    let out = run("1.2.3", &["fix bug", "patch: adjust threshold", "docs update"]);
    assert_eq!(out, Some("1.2.4".to_string()));
}

#[test]
fn zero_commits_is_no_release() {
    let out = run("1.2.3", &[]);
    assert_eq!(out, None);
}

#[test]
fn silent_commit_continues_build_counter() {
    let out = run("1.2.3+5", &["tidy the readme"]);
    assert_eq!(out, Some("1.2.3+6".to_string()));
}

#[test]
fn silent_commit_starts_build_counter_at_one() {
    let out = run("1.2.3", &["tidy the readme"]);
    assert_eq!(out, Some("1.2.3+1".to_string()));
    // a non-numeric build field counts as absent
    let out = run("1.2.3+nightly", &["tidy the readme"]);
    assert_eq!(out, Some("1.2.3+1".to_string()));
}

#[test]
fn minor_and_patch_together_yield_minor_only() {
    let out = run("1.2.3", &["patch: small fix", "minor: new call"]);
    assert_eq!(out, Some("1.3.0".to_string()));
}

#[test]
fn major_wins_over_everything_walked() {
    let out = run("1.2.3", &["patch: fix", "major: redesign", "minor: add"]);
    assert_eq!(out, Some("2.0.0".to_string()));
}

#[test]
fn bump_never_carries_build_metadata() {
    let out = run("1.2.3+41", &["patch: fix"]);
    assert_eq!(out, Some("1.2.4".to_string()));
}

#[test]
fn resolve_refused_only_at_numeric_edge() {
    let b = SemanticVersion {
        major: 1,
        minor: 0,
        patch: u64::MAX,
        pre: Vec::new(),
        build: Vec::new(),
    };
    let agg = BumpAggregate { objects_visited: 1, major: false, minor: false, patch: true };
    assert!(!can_resolve(&b, &agg));
    let silent = BumpAggregate { objects_visited: 1, major: false, minor: false, patch: false };
    assert!(can_resolve(&b, &silent));
    let v = resolve(&b, &silent).unwrap();
    assert_eq!(v.version_string(), format!("1.0.{}+1", u64::MAX));
}
