use pubgrub_py::{Package, Release, Resolver, ResolverError, SolveFailure};
use pubgrub_py::resolver::finish_resolution;

fn pairs(items: &[(&str, &str)]) -> Vec<(String, String)> {
    items.iter().map(|(a, b)| (a.to_string(), b.to_string())).collect()
}

fn version_of(result: &[(Package, Release)], name: &str) -> Option<Release> {
    result.iter().find(|(p, _)| p.as_str() == name).map(|(_, v)| *v)
}

#[test]
fn empty_requirements_resolve_to_nothing() {
    let mut r = Resolver::new();
    r.add_package("a".to_string(), "1.0.0".to_string(), None).unwrap();
    let out = r.resolve(Vec::new()).unwrap();
    assert!(out.is_empty());
}

#[test]
fn diamond_picks_the_shared_range() {
    let mut r = Resolver::new();
    r.add_package("a".to_string(), "1.0.0".to_string(), Some(pairs(&[("c", ">=1.0.0,<2.0.0")]))).unwrap();
    r.add_package("b".to_string(), "1.0.0".to_string(), Some(pairs(&[("c", ">=1.5.0,<3.0.0")]))).unwrap();
    for v in ["1.0.0", "1.4.0", "1.5.0", "1.9.0", "2.0.0", "2.5.0"] {
        r.add_package("c".to_string(), v.to_string(), None).unwrap();
    }
    let out = r.resolve(pairs(&[("a", "*"), ("b", "*")])).unwrap();
    assert_eq!(out.len(), 3);
    assert_eq!(version_of(&out, "a"), Some(Release::new(1, 0, 0)));
    assert_eq!(version_of(&out, "b"), Some(Release::new(1, 0, 0)));
    let c = version_of(&out, "c").unwrap();
    assert!(c >= Release::new(1, 5, 0) && c < Release::new(2, 0, 0));
    assert_eq!(c, Release::new(1, 9, 0));
    assert!(version_of(&out, "__root__").is_none());
}

#[test]
fn unsatisfiable_conjunction_fails_with_explanation() {
    let mut r = Resolver::new();
    r.add_package("x".to_string(), "1.0.0".to_string(), None).unwrap();
    r.add_package("x".to_string(), "2.0.0".to_string(), None).unwrap();
    match r.resolve(pairs(&[("x", "==1.0.0,==2.0.0")])) {
        Err(ResolverError::ResolutionFailed { message, explanation }) => {
            assert!(!message.is_empty());
            assert!(!explanation.is_empty());
        }
        other => panic!("unexpected {:?}", other),
    }
}

#[test]
fn reregistration_replaces_edges() {
    let mut r = Resolver::new();
    r.add_package("a".to_string(), "1.0.0".to_string(), Some(pairs(&[("b", "==1.0.0")]))).unwrap();
    r.add_package("a".to_string(), "1.0.0".to_string(), Some(pairs(&[("c", ">=1.0.0")]))).unwrap();
    r.add_package("b".to_string(), "1.0.0".to_string(), None).unwrap();
    r.add_package("c".to_string(), "1.0.0".to_string(), None).unwrap();
    let out = r.resolve(pairs(&[("a", "==1.0.0")])).unwrap();
    assert_eq!(version_of(&out, "c"), Some(Release::new(1, 0, 0)));
    assert!(version_of(&out, "b").is_none());
}

#[test]
fn sequential_resolutions_are_independent() {
    let mut r = Resolver::new();
    r.add_package("a".to_string(), "1.0.0".to_string(), None).unwrap();
    r.add_package("a".to_string(), "2.0.0".to_string(), None).unwrap();
    r.add_package("b".to_string(), "1.0.0".to_string(), None).unwrap();
    let first = r.resolve(pairs(&[("a", "<2.0.0")])).unwrap();
    let second = r.resolve(pairs(&[("b", "*")])).unwrap();
    let third = r.resolve(pairs(&[("a", "<2.0.0")])).unwrap();
    assert_eq!(first.len(), 1);
    assert_eq!(version_of(&first, "a"), Some(Release::new(1, 0, 0)));
    assert_eq!(second.len(), 1);
    assert_eq!(version_of(&second, "b"), Some(Release::new(1, 0, 0)));
    assert_eq!(first, third);
}

#[test]
fn missing_package_cannot_be_resolved() {
    let r = Resolver::new();
    match r.resolve(pairs(&[("ghost", "*")])) {
        Err(ResolverError::ResolutionFailed { explanation, .. }) => assert!(!explanation.is_empty()),
        other => panic!("unexpected {:?}", other),
    }
}

#[test]
fn invalid_registrations_change_nothing() {
    let mut r = Resolver::new();
    r.add_package("a".to_string(), "1.0.0".to_string(), None).unwrap();
    match r.add_package("a".to_string(), "2.0".to_string(), None) {
        Err(ResolverError::InvalidVersion { version, .. }) => assert_eq!(version, "2.0"),
        other => panic!("unexpected {:?}", other),
    }
    match r.add_package("a".to_string(), "1.0.0".to_string(), Some(pairs(&[("b", ">=oops")]))) {
        Err(ResolverError::InvalidVersion { version, .. }) => assert_eq!(version, "oops"),
        other => panic!("unexpected {:?}", other),
    }
    let out = r.resolve(pairs(&[("a", "*")])).unwrap();
    assert_eq!(version_of(&out, "a"), Some(Release::new(1, 0, 0)));
}

#[test]
fn invalid_requirement_is_reported() {
    let r = Resolver::default();
    match r.resolve(pairs(&[("a", "*"), ("b", "<=bad")])) {
        Err(ResolverError::InvalidVersion { version, .. }) => assert_eq!(version, "bad"),
        other => panic!("unexpected {:?}", other),
    }
}

#[test]
fn newest_admitted_version_is_chosen() {
    let mut r = Resolver::new();
    for v in ["1.0.0", "1.4.0", "1.4.7", "1.5.0"] {
        r.add_package("lib".to_string(), v.to_string(), None).unwrap();
    }
    let out = r.resolve(pairs(&[("lib", "~=1.4.0")])).unwrap();
    assert_eq!(version_of(&out, "lib"), Some(Release::new(1, 4, 7)));
}

#[test]
fn finishing_strips_the_root() {
    let sol = vec![
        ("__root__".to_string(), Release::new(0, 0, 0)),
        ("a".to_string(), Release::new(1, 2, 3)),
    ];
    let out = finish_resolution(Ok(sol)).unwrap();
    assert_eq!(out, vec![(Package::from("a"), Release::new(1, 2, 3))]);
}

#[test]
fn finishing_reports_failures() {
    match finish_resolution(Err(SolveFailure::NoSolution("because".to_string()))) {
        Err(ResolverError::ResolutionFailed { explanation, .. }) => assert_eq!(explanation, "because"),
        other => panic!("unexpected {:?}", other),
    }
    match finish_resolution(Err(SolveFailure::Other("broken".to_string()))) {
        Err(ResolverError::SolverError { message }) => assert_eq!(message, "broken"),
        other => panic!("unexpected {:?}", other),
    }
}

#[test]
fn packages_compare_by_name() {
    let a = Package::from("serde");
    let b = Package::from("serde".to_string());
    assert_eq!(a, b);
    assert_ne!(a, Package::from("rand"));
    assert_eq!(a.to_string(), "serde");
    assert_eq!(a.as_str(), "serde");
}

#[test]
fn root_edges_are_resolved_against_the_root() {
    let mut r = Resolver::new();
    r.add_package("a".to_string(), "1.0.0".to_string(), Some(pairs(&[("b", ">=1.0.0")]))).unwrap();
    r.add_package("b".to_string(), "1.2.0".to_string(), None).unwrap();
    r.add_package("unrelated".to_string(), "1.0.0".to_string(), None).unwrap();
    let out = r.resolve(pairs(&[("a", "==1.0.0")])).unwrap();
    assert_eq!(out.len(), 2);
    assert_eq!(version_of(&out, "b"), Some(Release::new(1, 2, 0)));
    assert!(version_of(&out, "unrelated").is_none());
}
