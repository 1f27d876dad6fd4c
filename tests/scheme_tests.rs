use std::cmp::Ordering;
use vers_rs::schemes::deb::DebVersion;
use vers_rs::schemes::semver::SemVer;
use vers_rs::VersError;

fn deb(s: &str) -> DebVersion {
    DebVersion::parse(s).unwrap()
}

fn sem(s: &str) -> SemVer {
    SemVer::parse(s).unwrap()
}

#[test]
fn deb_lower_upstream_is_less() {
    assert_eq!(deb("0.9").cmp(&deb("1.0")), Ordering::Less);
    assert_eq!(deb("1.0").cmp(&deb("0.9")), Ordering::Greater);
}

#[test]
fn deb_operators_follow_the_order() {
    assert!(deb("0.9") < deb("1.0"));
    assert!(deb("1:1.0") > deb("2.0"));
    assert!(deb("1.0~rc1") <= deb("1.0"));
}

#[test]
fn deb_tilde_sorts_before_end() {
    assert_eq!(deb("1.0~beta").cmp(&deb("1.0")), Ordering::Less);
    assert_eq!(deb("1.0~~").cmp(&deb("1.0~")), Ordering::Less);
    assert_eq!(deb("1.0").cmp(&deb("1.0a")), Ordering::Less);
}

#[test]
fn deb_epoch_dominates() {
    assert_eq!(deb("1:1.0").cmp(&deb("2.0")), Ordering::Greater);
    assert_eq!(deb("0:2.0").cmp(&deb("2.0")), Ordering::Equal);
}

#[test]
fn deb_digit_runs_compare_numerically() {
    assert_eq!(deb("1.0010").cmp(&deb("1.10")), Ordering::Equal);
    assert_eq!(deb("1.9").cmp(&deb("1.10")), Ordering::Less);
    assert_eq!(deb("1.000").cmp(&deb("1.0")), Ordering::Equal);
}

#[test]
fn deb_missing_revision_counts_as_zero() {
    assert_eq!(deb("1.0").cmp(&deb("1.0-0")), Ordering::Equal);
    assert_eq!(deb("1.0").cmp(&deb("1.0-1")), Ordering::Less);
    assert_eq!(deb("1.0-2").cmp(&deb("1.0-10")), Ordering::Less);
}

#[test]
fn deb_text_round_trip() {
    assert_eq!(deb("0:1.0").to_string(), "1.0");
    assert_eq!(deb("2:1.0-3").to_string(), "2:1.0-3");
    assert_eq!(deb("1.0-2-3").to_string(), "1.0-2-3");
    assert_eq!(deb("10:1.2+dfsg-1ubuntu2").to_string(), "10:1.2+dfsg-1ubuntu2");
}

#[test]
fn deb_refusals() {
    for bad in ["", ":1.0", "a1.0", "1.0-", "1.0-r@v", "x:1.0", "1.0_1", "99999999999999999999:1.0"] {
        match DebVersion::parse(bad) {
            Err(VersError::InvalidVersionFormat(scheme, text, _)) => {
                assert_eq!(scheme, "deb");
                assert_eq!(text, bad);
            }
            other => panic!("{:?} gave {:?}", bad, other),
        }
    }
}

#[test]
fn deb_default_is_zero() {
    assert_eq!(DebVersion::default().to_string(), "0");
}

#[test]
fn semver_precedence_chain() {
    let chain = [
        "1.0.0-alpha",
        "1.0.0-alpha.1",
        "1.0.0-alpha.beta",
        "1.0.0-beta",
        "1.0.0-beta.2",
        "1.0.0-beta.11",
        "1.0.0-rc.1",
        "1.0.0",
        "1.0.1",
        "1.1.0",
        "2.0.0",
    ];
    for w in chain.windows(2) {
        assert_eq!(sem(w[0]).cmp(&sem(w[1])), Ordering::Less, "{} < {}", w[0], w[1]);
        assert_eq!(sem(w[1]).cmp(&sem(w[0])), Ordering::Greater);
    }
}

#[test]
fn semver_build_is_ignored_in_order() {
    assert_eq!(sem("1.0.0+a").cmp(&sem("1.0.0+b")), Ordering::Equal);
    assert_eq!(sem("1.0.0+build.1").to_string(), "1.0.0+build.1");
}

#[test]
fn semver_text_round_trip() {
    assert_eq!(sem("1.2.3-alpha.1+build.5").to_string(), "1.2.3-alpha.1+build.5");
    assert_eq!(sem("0.0.0").to_string(), "0.0.0");
    assert_eq!(sem("18446744073709551615.0.0").to_string(), "18446744073709551615.0.0");
}

#[test]
fn semver_refusals() {
    for bad in [
        "",
        "1.0",
        "1.0.0.0",
        "01.0.0",
        "1.0.0-01",
        "1.0.0-",
        "1.0.0+",
        "1.0.0-a..b",
        "invalid.version",
        "18446744073709551616.0.0",
    ] {
        assert!(
            matches!(SemVer::parse(bad), Err(VersError::InvalidVersionFormat(..))),
            "{:?}",
            bad
        );
    }
}
