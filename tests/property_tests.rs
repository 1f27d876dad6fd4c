use vers_rs::schemes::deb::DebVersion;
use vers_rs::{contains, parse, Comparator, GenericVersionRange, VersError};

#[test]
fn scenario_single_equal() {
    let r = parse("vers:npm/1.2.3").unwrap();
    assert_eq!(r.versioning_scheme(), "npm");
    let cs = r.constraints();
    assert_eq!(cs.len(), 1);
    assert_eq!(cs[0].comparator, Comparator::Equal);
    assert_eq!(cs[0].version, "1.2.3");
}

#[test]
fn scenario_half_open_range() {
    let r = parse("vers:npm/>=1.0.0|<2.0.0").unwrap();
    assert_eq!(contains(&r, "1.5.0".to_string()), Ok(true));
    assert_eq!(contains(&r, "2.0.0".to_string()), Ok(false));
    assert_eq!(contains(&r, "0.9.0".to_string()), Ok(false));
}

#[test]
fn scenario_equal_inside_bound_is_dropped() {
    assert_eq!(parse("vers:npm/1.2.3|<2.0.0").unwrap().to_string(), "vers:npm/<2.0.0");
}

#[test]
fn scenario_deb_less_than() {
    let r = parse("vers:deb/<<1.0").unwrap();
    assert_eq!(contains(&r, "1.0~beta".to_string()), Ok(true));
    assert_eq!(contains(&r, "1.0".to_string()), Ok(false));
}

#[test]
fn scenario_deb_epoch() {
    let r = parse("vers:deb/>>2.0").unwrap();
    assert_eq!(contains(&r, "1:1.0".to_string()), Ok(true));
    assert_eq!(contains(&r, "2.0".to_string()), Ok(false));
}

#[test]
fn scenario_unsupported_scheme() {
    assert_eq!(
        parse("vers:pypi/>=1.0.0").unwrap_err(),
        VersError::UnsupportedVersioningScheme("pypi".to_string())
    );
}

#[test]
fn round_trip_through_text() {
    for s in [
        "vers:npm/>=1.0.0|<2.0.0|!=1.5.0",
        "vers:npm/ <2.0.0 | 1.2.3 ",
        "vers:semver/*",
        "vers:deb/>=0:1.0-1|<<2:3.0~rc1",
        "vers:npm/1.0.0%2Bbuild.1",
        "vers:npm/>=1.0.0|>1.5.0|<3.0.0|<=2.0.0",
    ] {
        let first = parse(s).unwrap();
        let again = parse(&first.to_string()).unwrap();
        assert_eq!(first, again, "{}", s);
        assert_eq!(first.to_string(), again.to_string());
    }
}

#[test]
fn parse_is_deterministic_and_order_free() {
    let a = parse("vers:npm/<3.0.0|>=1.0.0|!=2.0.0").unwrap();
    let b = parse("vers:npm/!=2.0.0|>=1.0.0|<3.0.0").unwrap();
    let c = parse("vers:npm/<3.0.0|>=1.0.0|!=2.0.0").unwrap();
    assert_eq!(a, c);
    assert_eq!(a, b);
    assert_eq!(a.to_string(), "vers:npm/>=1.0.0|!=2.0.0|<3.0.0");
}

#[test]
fn containment_is_conjunction() {
    let r = parse("vers:npm/>=1.0.0|!=1.2.0|!=1.3.0|<2.0.0").unwrap();
    for (v, expected) in [
        ("0.9.0", false),
        ("1.0.0", true),
        ("1.2.0", false),
        ("1.3.0", false),
        ("1.4.0", true),
        ("2.0.0", false),
    ] {
        assert_eq!(contains(&r, v.to_string()), Ok(expected), "{}", v);
    }
}

#[test]
fn duplicates_refused_whatever_the_comparators() {
    for s in ["vers:npm/>=1.0.0|<1.0.0", "vers:npm/1.0.0|!=1.0.0", "vers:deb/<<1.0|>>1.0", "vers:npm/*|*"] {
        assert!(matches!(parse(s), Err(VersError::DuplicateVersion(_))), "{}", s);
    }
    assert_eq!(
        parse("vers:npm/>=1.0.0|<1.0.0").unwrap_err(),
        VersError::DuplicateVersion("1.0.0".to_string())
    );
}

#[test]
fn crossing_bounds_are_refused() {
    assert_eq!(parse("vers:npm/>2.0.0|<1.0.0").unwrap_err(), VersError::ConflictingConstraints);
    assert_eq!(parse("vers:npm/>=2.0.0|<2.0.0+b").unwrap_err(), VersError::ConflictingConstraints);
    let point = parse("vers:npm/>=2.0.0|<=2.0.0+b").unwrap();
    assert_eq!(contains(&point, "2.0.0".to_string()), Ok(true));
}

#[test]
fn equal_outside_bounds_is_refused() {
    assert_eq!(parse("vers:npm/3.0.0|<2.0.0").unwrap_err(), VersError::ConflictingConstraints);
    assert_eq!(parse("vers:npm/0.5.0|>1.0.0").unwrap_err(), VersError::ConflictingConstraints);
}

#[test]
fn loosest_bounds_survive() {
    assert_eq!(parse("vers:npm/>1.0.0|>2.0.0").unwrap().to_string(), "vers:npm/>1.0.0");
    assert_eq!(parse("vers:npm/<1.0.0|<2.0.0").unwrap().to_string(), "vers:npm/<2.0.0");
    assert_eq!(parse("vers:npm/2.0.0|1.0.0").unwrap().to_string(), "vers:npm/1.0.0|2.0.0");
}

#[test]
fn header_errors() {
    assert_eq!(parse("foo:npm/1.0.0").unwrap_err(), VersError::InvalidScheme);
    assert_eq!(parse("vers:np_m/1.0.0").unwrap_err(), VersError::InvalidScheme);
    assert_eq!(parse("vers:/1.0.0").unwrap_err(), VersError::MissingVersioningScheme);
    assert_eq!(parse("vers:npm/").unwrap_err(), VersError::EmptyConstraints);
    assert_eq!(parse("  vers:npm/   ").unwrap_err(), VersError::EmptyConstraints);
    assert_eq!(parse("vers:npm").unwrap_err(), VersError::EmptyConstraints);
    assert_eq!(
        parse("vers:NPM/1.0.0").unwrap_err(),
        VersError::UnsupportedVersioningScheme("NPM".to_string())
    );
}

#[test]
fn invalid_version_names_scheme_and_text() {
    match parse("vers:npm/>=1.0.0|<2.x") {
        Err(VersError::InvalidVersionFormat(scheme, text, _)) => {
            assert_eq!(scheme, "npm");
            assert_eq!(text, "2.x");
        }
        other => panic!("{:?}", other),
    }
    let r = parse("vers:deb/>=1.0").unwrap();
    match contains(&r, "abc".to_string()) {
        Err(VersError::InvalidVersionFormat(scheme, text, _)) => {
            assert_eq!(scheme, "deb");
            assert_eq!(text, "abc");
        }
        other => panic!("{:?}", other),
    }
}

#[test]
fn percent_escapes_are_decoded() {
    let r = parse("vers:npm/%3E%3D1.0.0").unwrap_err();
    assert!(matches!(r, VersError::InvalidVersionFormat(..)));
    let r = parse("vers:deb/1.0%7E1").unwrap();
    assert_eq!(r.constraints()[0].version, "1.0~1");
    assert!(matches!(parse("vers:npm/1.0.0%7C2"), Err(VersError::InvalidVersionFormat(..))));
}

#[test]
fn star_admits_everything() {
    let r = parse("vers:deb/*").unwrap();
    assert_eq!(r.constraints()[0].comparator, Comparator::Any);
    assert_eq!(r.constraints()[0].version, "0");
    assert_eq!(contains(&r, "0~".to_string()), Ok(true));
    assert_eq!(r.to_string(), "vers:deb/*");
}

#[test]
fn normalize_of_empty_list_is_refused() {
    let mut r = GenericVersionRange::<DebVersion>::new("deb".to_string(), Vec::new());
    assert_eq!(r.normalize_and_validate(), Err(VersError::EmptyConstraints));
}
