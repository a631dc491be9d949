//! Tests of the version model: parsing, rendering, ordering, increments,
//! and the build-metadata counter.

use next_version::order::{compare, VersionOrder};
use next_version::parse::parse;
use next_version::scanner::{default_base, highest_version};
use next_version::version::SemanticVersion;

fn v(s: &str) -> SemanticVersion {
    parse(s).expect("expected a valid version")
}

#[test]
fn parse_plain_version() {
    let p = v("1.2.3");
    assert_eq!(p.major, 1);
    assert_eq!(p.minor, 2);
    assert_eq!(p.patch, 3);
    assert!(p.pre.is_empty());
    assert!(p.build.is_empty());
}

#[test]
fn parse_with_pre_release_and_build() {
    let p = v("1.2.3-alpha.1+42");
    assert_eq!(p.major, 1);
    assert_eq!(p.minor, 2);
    assert_eq!(p.patch, 3);
    assert_eq!(p.pre, vec!["alpha".to_string(), "1".to_string()]);
    assert_eq!(p.build, vec!["42".to_string()]);
}

#[test]
fn parse_rejects_malformed_strings() {
    for bad in [
        "", "1", "1.2", "1.2.3.4", "01.2.3", "1.02.3", "1.2.03", "v1.0.0", "1.2.3-", "1.2.3+",
        "1.2.3-01", "1.2.3-a..b", "1.2.3+x_y", "1.2.x", " 1.2.3", "1.2.3 ",
    ] {
        assert!(parse(bad).is_err(), "accepted {:?}", bad);
    }
}

#[test]
fn parse_accepts_edge_forms() {
    assert!(parse("0.0.0").is_ok());
    assert!(parse("1.2.3-0.a-b.x").is_ok());
    assert!(parse("1.2.3+007.alpha-3").is_ok());
    assert!(parse("18446744073709551615.0.0").is_ok());
    // one past the largest machine word
    assert!(parse("18446744073709551616.0.0").is_err());
}

#[test]
fn render_round_trips_numeric_core() {
    for s in ["0.0.1", "1.2.3", "10.20.30", "184.0.99"] {
        assert_eq!(v(s).version_string(), s);
    }
    // pre-release tails are not part of an output version
    assert_eq!(v("1.2.3-alpha.7").version_string(), "1.2.3");
    // build metadata is kept after the plus sign
    assert_eq!(v("1.2.3+42").version_string(), "1.2.3+42");
    assert_eq!(v("1.2.3+a.b-c").version_string(), "1.2.3+a.b-c");
}

#[test]
fn increment_patch_twice_adds_two() {
    let mut p = v("1.2.3-alpha+9");
    p.increment_patch();
    assert_eq!(p.version_string(), "1.2.4");
    assert!(p.pre.is_empty() && p.build.is_empty());
    p.increment_patch();
    assert_eq!(p.major, 1);
    assert_eq!(p.minor, 2);
    assert_eq!(p.patch, 5);
}

#[test]
fn increments_reset_lower_components() {
    let mut a = v("1.2.3");
    a.increment_minor();
    assert_eq!(a.version_string(), "1.3.0");
    let mut b = v("1.2.3-rc.1+5");
    b.increment_major();
    assert_eq!(b.version_string(), "2.0.0");
    assert!(b.pre.is_empty() && b.build.is_empty());
}

#[test]
fn compare_orders_numeric_components() {
    assert_eq!(compare(&v("1.0.0"), &v("2.0.0")), VersionOrder::Less);
    assert_eq!(compare(&v("2.1.0"), &v("1.9.9")), VersionOrder::Greater);
    assert_eq!(compare(&v("1.2.3"), &v("1.2.3")), VersionOrder::Equal);
    assert_eq!(compare(&v("1.2.3"), &v("1.2.10")), VersionOrder::Less);
}

#[test]
fn compare_orders_pre_releases_per_precedence() {
    let chain = [
        "1.0.0-alpha",
        "1.0.0-alpha.1",
        "1.0.0-alpha.beta",
        "1.0.0-beta",
        "1.0.0-beta.2",
        "1.0.0-beta.11",
        "1.0.0-rc.1",
        "1.0.0",
    ];
    for w in chain.windows(2) {
        assert_eq!(
            compare(&v(w[0]), &v(w[1])),
            VersionOrder::Less,
            "{} should precede {}",
            w[0],
            w[1]
        );
        assert_eq!(compare(&v(w[1]), &v(w[0])), VersionOrder::Greater);
    }
}

#[test]
fn compare_ignores_build_metadata() {
    assert_eq!(compare(&v("1.0.0+1"), &v("1.0.0+2")), VersionOrder::Equal);
    assert_eq!(compare(&v("1.0.0+9"), &v("1.0.0")), VersionOrder::Equal);
}

#[test]
fn build_number_reads_single_numeric_identifier() {
    assert_eq!(v("1.2.3+5").build_number(), Some(5));
    assert_eq!(v("1.2.3+007").build_number(), Some(7));
    assert_eq!(v("1.2.3").build_number(), None);
    assert_eq!(v("1.2.3+abc").build_number(), None);
    assert_eq!(v("1.2.3+1.2").build_number(), None);
}

#[test]
fn scanner_selects_highest_parseable_tag() {
    let tags: Vec<String> = ["v1.0.0", "not-a-version", "2.1.0", "1.9.9"]
        .iter()
        .map(|s| s.to_string())
        .collect();
    let best = highest_version(&tags).expect("expected a version among the tags");
    assert_eq!(best.version_string(), "2.1.0");
}

#[test]
fn scanner_yields_nothing_without_version_tags() {
    let tags: Vec<String> = vec!["release".to_string(), "v2".to_string()];
    assert!(highest_version(&tags).is_none());
    assert!(highest_version(&Vec::new()).is_none());
}

#[test]
fn scanner_prefers_release_over_its_pre_releases() {
    let tags: Vec<String> = ["1.0.0-rc.2", "1.0.0", "1.0.0-alpha"]
        .iter()
        .map(|s| s.to_string())
        .collect();
    let best = highest_version(&tags).unwrap();
    assert!(best.pre.is_empty());
    assert_eq!(best.version_string(), "1.0.0");
}

#[test]
fn default_base_is_first_seed() {
    assert_eq!(default_base().version_string(), "0.0.1");
}
