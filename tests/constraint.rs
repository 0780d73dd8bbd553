use pubgrub_py::{admits, parse_constraint, parse_version, Release, ResolverError};
use semver::Version;

#[test]
fn test_parse_version() {
    assert!(parse_version("1.0.0").is_ok());
    assert!(parse_version("0.1.0").is_ok());
    assert!(parse_version("10.20.30").is_ok());
    assert!(parse_version("invalid").is_err());
}

#[test]
fn test_parse_constraint_operators() {
    assert!(parse_constraint(">=1.0.0").is_ok());
    assert!(parse_constraint("<=2.0.0").is_ok());
    assert!(parse_constraint(">1.0.0").is_ok());
    assert!(parse_constraint("<2.0.0").is_ok());
    assert!(parse_constraint("==1.5.0").is_ok());
    assert!(parse_constraint("!=1.3.0").is_ok());
    assert!(parse_constraint("~=1.4.0").is_ok());
}

#[test]
fn test_parse_constraint_combined() {
    let range = parse_constraint(">=1.0.0,<2.0.0").unwrap();
    assert!(range.contains(&Version::new(1, 0, 0)));
    assert!(range.contains(&Version::new(1, 5, 0)));
    assert!(!range.contains(&Version::new(2, 0, 0)));
    assert!(!range.contains(&Version::new(0, 9, 0)));
}

#[test]
fn test_parse_constraint_compatible_release() {
    let range = parse_constraint("~=1.4.0").unwrap();
    assert!(range.contains(&Version::new(1, 4, 0)));
    assert!(range.contains(&Version::new(1, 4, 5)));
    assert!(!range.contains(&Version::new(1, 5, 0)));
    assert!(!range.contains(&Version::new(1, 3, 0)));
}

#[test]
fn parse_version_reads_the_three_numbers() {
    assert_eq!(parse_version("10.20.30").unwrap(), Release::new(10, 20, 30));
    assert_eq!(parse_version("0.0.0").unwrap(), Release { major: 0, minor: 0, patch: 0 });
}

#[test]
fn version_text_round_trips() {
    for v in [Release::new(1, 2, 3), Release::new(0, 0, 0), Release::new(18446744073709551615, 7, 10)] {
        let text = v.to_string();
        assert_eq!(parse_version(&text).unwrap(), v);
    }
    assert_eq!(Release::new(1, 20, 3).to_string(), "1.20.3");
    assert_eq!(Release::new(0, 10, 0).to_string(), "0.10.0");
}

#[test]
fn malformed_literal_names_it() {
    match parse_version("abc") {
        Err(ResolverError::InvalidVersion { version, reason }) => {
            assert_eq!(version, "abc");
            assert!(!reason.is_empty());
        }
        other => panic!("unexpected {:?}", other),
    }
    match parse_constraint(">=abc") {
        Err(ResolverError::InvalidVersion { version, .. }) => assert_eq!(version, "abc"),
        other => panic!("unexpected {:?}", other),
    }
}

#[test]
fn versions_outside_the_grammar_are_rejected() {
    for bad in ["01.0.0", "1.0", "1.0.0.0", " 1.0.0", "1.0.0-alpha", "1.0.0+build", ""] {
        match parse_version(bad) {
            Err(ResolverError::InvalidVersion { version, reason }) => {
                assert_eq!(version, bad);
                assert!(!reason.is_empty());
            }
            other => panic!("{} gave {:?}", bad, other),
        }
    }
}

#[test]
fn wildcard_and_empty_admit_everything() {
    for text in ["*", "", "  ", " * "] {
        let range = parse_constraint(text).unwrap();
        for v in [Release::new(0, 0, 0), Release::new(1, 4, 5), Release::new(18446744073709551615, 0, 0)] {
            assert!(admits(&range, v));
        }
    }
}

#[test]
fn not_equal_resumes_after_the_next_patch() {
    let range = parse_constraint("!=1.3.0").unwrap();
    assert!(!admits(&range, Release::new(1, 3, 0)));
    assert!(admits(&range, Release::new(1, 3, 1)));
    assert!(admits(&range, Release::new(1, 2, 9)));
    assert!(admits(&range, Release::new(2, 0, 0)));
    assert!(admits(&range, Release::new(0, 0, 0)));
}

#[test]
fn single_operators_have_their_bounds() {
    let at_most = parse_constraint("<=2.0.0").unwrap();
    assert!(admits(&at_most, Release::new(2, 0, 0)));
    assert!(!admits(&at_most, Release::new(2, 0, 1)));
    let above = parse_constraint(">1.0.0").unwrap();
    assert!(!admits(&above, Release::new(1, 0, 0)));
    assert!(admits(&above, Release::new(1, 0, 1)));
    let below = parse_constraint("<2.0.0").unwrap();
    assert!(admits(&below, Release::new(1, 99, 99)));
    assert!(!admits(&below, Release::new(2, 0, 0)));
    let equal = parse_constraint("==1.5.0").unwrap();
    assert!(admits(&equal, Release::new(1, 5, 0)));
    assert!(!admits(&equal, Release::new(1, 5, 1)));
    let bare = parse_constraint("1.5.0").unwrap();
    assert!(admits(&bare, Release::new(1, 5, 0)));
    assert!(!admits(&bare, Release::new(1, 4, 0)));
    let at_least = parse_constraint(">=1.0.0").unwrap();
    assert!(admits(&at_least, Release::new(1, 0, 0)));
    assert!(!admits(&at_least, Release::new(0, 9, 9)));
}

#[test]
fn whitespace_and_empty_clauses_are_ignored() {
    let range = parse_constraint("  >= 1.0.0 ,, <\t2.0.0 , ").unwrap();
    assert!(admits(&range, Release::new(1, 0, 0)));
    assert!(admits(&range, Release::new(1, 5, 0)));
    assert!(!admits(&range, Release::new(2, 0, 0)));
    assert!(!admits(&range, Release::new(0, 9, 0)));
}

#[test]
fn contradictory_clauses_admit_nothing() {
    let range = parse_constraint("==1.0.0,==2.0.0").unwrap();
    assert!(!admits(&range, Release::new(1, 0, 0)));
    assert!(!admits(&range, Release::new(2, 0, 0)));
}

#[test]
fn first_bad_clause_is_reported() {
    match parse_constraint(">=1.0.0,<x,<y") {
        Err(ResolverError::InvalidVersion { version, .. }) => assert_eq!(version, "x"),
        other => panic!("unexpected {:?}", other),
    }
    match parse_constraint("~1.0.0") {
        Err(ResolverError::InvalidVersion { version, .. }) => assert_eq!(version, "~1.0.0"),
        other => panic!("unexpected {:?}", other),
    }
}

#[test]
fn missing_successor_is_an_invalid_constraint() {
    match parse_constraint("<=1.0.18446744073709551615") {
        Err(ResolverError::InvalidConstraint { constraint, .. }) => {
            assert_eq!(constraint, "<=1.0.18446744073709551615")
        }
        other => panic!("unexpected {:?}", other),
    }
    match parse_constraint("~=1.18446744073709551615.0") {
        Err(ResolverError::InvalidConstraint { .. }) => {}
        other => panic!("unexpected {:?}", other),
    }
    assert!(parse_constraint(">=1.0.18446744073709551615").is_ok());
}
