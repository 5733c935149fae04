use std::collections::HashSet;
use zenoh_resource::tree::{Resource, Tables};

type T = Tables<u32, u32>;
type R = Resource<u32, u32>;

fn sample() -> (T, usize, usize, usize) {
    let mut t: T = Tables::new();
    let ab = R::make_resource(&mut t, 0, "a/b", 0);
    let ac = R::make_resource(&mut t, 0, "a/c", 0);
    let xy = R::make_resource(&mut t, 0, "x/y", 0);
    (t, ab, ac, xy)
}

fn as_set(v: &[usize]) -> HashSet<usize> {
    v.iter().copied().collect()
}

#[test]
fn matches_of_single_star() {
    let (t, ab, ac, _xy) = sample();
    let m = R::try_get_matches(&t, "a/*").unwrap();
    assert_eq!(as_set(&m), as_set(&[ab, ac]));
    assert_eq!(m.len(), 2);
}

#[test]
fn matches_of_exact_key() {
    let (t, ab, _ac, _xy) = sample();
    assert_eq!(R::try_get_matches(&t, "a/b").unwrap(), vec![ab]);
    assert_eq!(R::get_matches(&t, "a/b"), vec![ab]);
    assert!(R::try_get_matches(&t, "a/d").unwrap().is_empty());
}

#[test]
fn matches_of_double_star() {
    let (t, ab, ac, xy) = sample();
    let m = R::try_get_matches(&t, "**").unwrap();
    assert_eq!(as_set(&m), as_set(&[ab, ac, xy]));
    let m = R::try_get_matches(&t, "a/**").unwrap();
    assert_eq!(as_set(&m), as_set(&[ab, ac]));
    let m = R::try_get_matches(&t, "*/y").unwrap();
    assert_eq!(as_set(&m), as_set(&[xy]));
}

#[test]
fn matches_skip_resources_without_context() {
    let mut t: T = Tables::new();
    let ab = R::make_resource(&mut t, 0, "a/b", 0);
    // "a" was only made on the way to "a/b"
    let m = R::try_get_matches(&t, "a").unwrap();
    assert!(m.is_empty());
    let m = R::try_get_matches(&t, "a/**").unwrap();
    assert_eq!(m, vec![ab]);
}

#[test]
fn matches_of_wild_resource() {
    let mut t: T = Tables::new();
    let ax = R::make_resource(&mut t, 0, "a/*", 0);
    let ab = R::make_resource(&mut t, 0, "a/b", 0);
    let m = R::try_get_matches(&t, "a/b").unwrap();
    assert_eq!(as_set(&m), as_set(&[ax, ab]));
}

#[test]
fn invalid_key_expression_has_no_matches() {
    let (t, _ab, _ac, _xy) = sample();
    assert!(R::try_get_matches(&t, "a//b").is_none());
    assert!(R::try_get_matches(&t, "a/**/**").is_none());
    assert!(R::try_get_matches(&t, "").is_none());
}

#[test]
fn match_resource_records_both_ways() {
    let (mut t, ab, ac, xy) = sample();
    let ms = R::get_matches(&t, "a/*");
    R::match_resource(&mut t, ab, ms);
    assert!(R::matches(&t, ab, ac));
    assert!(R::matches(&t, ac, ab));
    assert!(!R::matches(&t, ab, xy));
    assert!(!R::matches(&t, xy, ab));
    assert_eq!(t.resources[ab].context.as_ref().unwrap().matches.len(), 2);
}

#[test]
fn match_resource_without_context_does_nothing() {
    let (mut t, ab, _ac, _xy) = sample();
    let before: Vec<usize> = t.resources[ab].context.as_ref().unwrap().matches.clone();
    R::match_resource(&mut t, 1, vec![ab]);
    assert!(t.resources[1].context.is_none());
    assert_eq!(t.resources[ab].context.as_ref().unwrap().matches, before);
}
