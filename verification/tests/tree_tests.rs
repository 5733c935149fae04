use zenoh_resource::tree::{Resource, Tables};

type T = Tables<u32, u32>;
type R = Resource<u32, u32>;

fn key(t: &T, i: usize) -> String {
    R::expr(t, i)
}

#[test]
fn make_resource_builds_chunks() {
    let mut t: T = Tables::new();
    let r = R::make_resource(&mut t, 0, "a/b", 7);
    assert_eq!(r, 2);
    assert_eq!(t.resources.len(), 3);
    assert_eq!(t.resources[1].suffix, "a");
    assert_eq!(t.resources[2].suffix, "/b");
    assert_eq!(t.resources[2].parent, Some(1));
    assert_eq!(t.resources[0].children, vec![1]);
    assert_eq!(t.resources[1].children, vec![2]);
    assert_eq!(key(&t, r), "a/b");
    assert_eq!(key(&t, 1), "a");
    assert_eq!(key(&t, 0), "");
    assert_eq!(t.resources[r].context.as_ref().unwrap().hat, 7);
    assert!(t.resources[1].context.is_none());
}

#[test]
fn make_resource_twice_gives_same_resource() {
    let mut t: T = Tables::new();
    let r1 = R::make_resource(&mut t, 0, "a/b/c", 1);
    let n = t.resources.len();
    let r2 = R::make_resource(&mut t, 0, "a/b/c", 2);
    assert_eq!(r1, r2);
    assert_eq!(t.resources.len(), n);
    assert_eq!(t.resources[r1].context.as_ref().unwrap().hat, 1);
}

#[test]
fn make_resource_relative_suffixes() {
    let mut t: T = Tables::new();
    let ab = R::make_resource(&mut t, 0, "a/b", 0);
    let abc = R::make_resource(&mut t, ab, "/c", 0);
    assert_eq!(key(&t, abc), "a/b/c");
    let abx = R::make_resource(&mut t, ab, "x", 0);
    assert_eq!(key(&t, abx), "a/bx");
    assert_eq!(t.resources[abx].parent, Some(1));
    assert_eq!(R::get_resource(&t, 0, "a/bx"), Some(abx));
}

#[test]
fn get_resource_finds_and_misses() {
    let mut t: T = Tables::new();
    let ab = R::make_resource(&mut t, 0, "a/b", 0);
    assert_eq!(R::get_resource(&t, 0, "a/b"), Some(ab));
    assert_eq!(R::get_resource(&t, 1, "/b"), Some(ab));
    assert_eq!(R::get_resource(&t, ab, ""), Some(ab));
    assert_eq!(R::get_resource(&t, 0, "a"), Some(1));
    assert_eq!(R::get_resource(&t, 0, "a/c"), None);
    assert_eq!(R::get_resource(&t, 0, "b"), None);
    assert_eq!(R::get_resource(&t, ab, "x"), None);
}

#[test]
fn check_resource_returns_existing() {
    let mut t: T = Tables::new();
    let ab = R::make_resource(&mut t, 0, "a/b", 0);
    assert_eq!(R::check_resource(&t, 0, "a/b"), ab);
    assert_eq!(R::check_resource(&t, 1, "/b"), ab);
}

#[test]
fn get_child_by_chunk() {
    let mut t: T = Tables::new();
    R::make_resource(&mut t, 0, "a/b", 0);
    assert_eq!(t.get_child(0, "a"), Some(1));
    assert_eq!(t.get_child(1, "/b"), Some(2));
    assert_eq!(t.get_child(1, "b"), None);
}

#[test]
fn root_resource_is_bare() {
    let r: R = Resource::root();
    assert!(r.parent.is_none());
    assert_eq!(r.suffix, "");
    assert!(r.children.is_empty());
    assert!(r.context.is_none());
    assert!(r.session_ctxs.is_empty());
    assert_eq!(r.holders, 0);
    r.format_one_layer();
}

#[test]
fn upgrade_resource_keeps_existing_context() {
    let mut t: T = Tables::new();
    R::make_resource(&mut t, 0, "a/b", 3);
    R::upgrade_resource(&mut t, 1, 5);
    assert_eq!(t.resources[1].context.as_ref().unwrap().hat, 5);
    R::upgrade_resource(&mut t, 1, 6);
    assert_eq!(t.resources[1].context.as_ref().unwrap().hat, 5);
    assert_eq!(R::context(&t, 2).hat, 3);
}

#[test]
fn nonwild_prefix_splits_at_wildcard() {
    let mut t: T = Tables::new();
    let plain = R::make_resource(&mut t, 0, "a/b", 0);
    let wild = R::make_resource(&mut t, 0, "a/*/c", 0);
    let top = R::make_resource(&mut t, 0, "*/x", 0);
    assert_eq!(R::nonwild_prefix(&t, plain), (Some(plain), String::new()));
    assert_eq!(R::nonwild_prefix(&t, wild), (Some(1), "/*/c".to_string()));
    assert_eq!(R::nonwild_prefix(&t, top), (None, "*/x".to_string()));
}

#[test]
fn format_for_no_recursive_text() {
    let mut t: T = Tables::new();
    let ab = R::make_resource(&mut t, 0, "a/b", 0);
    assert_eq!(R::format_for_no_recursive(&t, ab), "Resource { suffix: /b, full_expr: a/b}");
    assert_eq!(R::format_for_no_recursive(&t, 0), "Resource { suffix: , full_expr: }");
}

#[test]
fn print_tree_lists_keys_depth_first() {
    let mut t: T = Tables::new();
    R::make_resource(&mut t, 0, "a/b", 0);
    R::make_resource(&mut t, 0, "a/c", 0);
    R::make_resource(&mut t, 0, "d", 0);
    assert_eq!(R::print_tree(&t, 0), "\na\na/b\na/c\nd\n");
    assert_eq!(R::print_tree(&t, 1), "a\na/b\na/c\n");
}

#[test]
fn clean_unlinks_unheld_chain() {
    let mut t: T = Tables::new();
    let abc = R::make_resource(&mut t, 0, "a/b/c", 0);
    R::clean(&mut t, abc);
    assert_eq!(R::get_resource(&t, 0, "a/b/c"), None);
    assert_eq!(R::get_resource(&t, 0, "a"), None);
    assert!(t.resources[0].children.is_empty());
    assert_eq!(t.resources.len(), 4);
}

#[test]
fn clean_stops_at_held_or_parent_with_children() {
    let mut t: T = Tables::new();
    let ab = R::make_resource(&mut t, 0, "a/b", 0);
    let ac = R::make_resource(&mut t, 0, "a/c", 0);
    t.resources[ac].holders = 1;
    R::clean(&mut t, ac);
    assert_eq!(R::get_resource(&t, 0, "a/c"), Some(ac));
    R::clean(&mut t, ab);
    assert_eq!(R::get_resource(&t, 0, "a/b"), None);
    assert_eq!(R::get_resource(&t, 0, "a"), Some(1));
    assert_eq!(t.resources[1].children, vec![ac]);
}

#[test]
fn clean_removes_from_matches() {
    let mut t: T = Tables::new();
    let ab = R::make_resource(&mut t, 0, "a/b", 0);
    let ax = R::make_resource(&mut t, 0, "a/*", 0);
    R::match_resource(&mut t, ab, vec![ab, ax]);
    assert!(R::matches(&t, ax, ab));
    R::clean(&mut t, ab);
    assert!(!R::matches(&t, ax, ab));
    assert_eq!(R::get_resource(&t, 0, "a/*"), Some(ax));
}

#[test]
fn close_root_detaches_everything() {
    let mut t: T = Tables::new();
    R::make_resource(&mut t, 0, "a/b", 0);
    R::make_resource(&mut t, 0, "c", 0);
    R::close(&mut t, 0);
    for r in t.resources.iter() {
        assert!(r.parent.is_none());
        assert!(r.children.is_empty());
        assert!(r.context.is_none());
        assert!(r.nonwild_prefix.is_none());
    }
    assert_eq!(R::get_resource(&t, 0, "a/b"), None);
    assert_eq!(t.resources[2].suffix, "/b");
}

#[test]
fn close_subtree_leaves_rest() {
    let mut t: T = Tables::new();
    let ab = R::make_resource(&mut t, 0, "a/b", 0);
    let c = R::make_resource(&mut t, 0, "c", 0);
    R::close(&mut t, 1);
    assert!(t.resources[1].parent.is_none());
    assert!(t.resources[ab].parent.is_none());
    assert!(t.resources[c].context.is_some());
    assert_eq!(t.resources[c].parent, Some(0));
}

#[test]
fn make_keeps_earlier_lookups() {
    let mut t: T = Tables::new();
    let ab = R::make_resource(&mut t, 0, "a/b", 0);
    let ac = R::make_resource(&mut t, 0, "a/c", 0);
    let d = R::make_resource(&mut t, ab, "/d", 0);
    assert_eq!(R::get_resource(&t, 0, "a/b"), Some(ab));
    assert_eq!(R::get_resource(&t, 0, "a/c"), Some(ac));
    assert_eq!(R::get_resource(&t, 0, "a/b/d"), Some(d));
}

#[test]
fn distinct_keys_distinct_resources() {
    let mut t: T = Tables::new();
    let keys = ["a", "a/b", "a/b/c", "b", "a/bc", "*/b"];
    let mut seen: Vec<usize> = Vec::new();
    for k in keys.iter() {
        let r = R::make_resource(&mut t, 0, k, 0);
        assert!(!seen.contains(&r));
        seen.push(r);
        assert_eq!(R::expr(&t, r), *k);
    }
    for (k, r) in keys.iter().zip(seen.iter()) {
        assert_eq!(R::get_resource(&t, 0, k), Some(*r));
    }
}

#[test]
fn key_of_child_is_parent_key_and_suffix() {
    let mut t: T = Tables::new();
    let r = R::make_resource(&mut t, 0, "a/b/c", 0);
    let p = t.resources[r].parent.unwrap();
    assert_eq!(R::expr(&t, r), R::expr(&t, p) + t.resources[r].suffix.as_str());
}

#[test]
fn same_key_compares_keys() {
    let mut t: T = Tables::new();
    let ab = R::make_resource(&mut t, 0, "a/b", 0);
    let ac = R::make_resource(&mut t, 0, "a/c", 0);
    assert!(R::same_key(&t, ab, ab));
    assert!(!R::same_key(&t, ab, ac));
    assert!(!R::same_key(&t, 0, 1));
}

#[test]
fn format_excluding_matches_text() {
    let mut t: T = Tables::new();
    let ab = R::make_resource(&mut t, 0, "a/b", 0);
    assert_eq!(
        R::format_excluding_matches(&t, 1),
        "Resource { suffix: a, children: [\"/b\"], data_routes: None}"
    );
    assert_eq!(
        R::format_excluding_matches(&t, ab),
        "Resource { suffix: /b, children: [], data_routes: {\n                routers: [\"\"],\n                peers: [\"\"],\n                clients: [\"\"]}}"
    );
}

#[test]
fn matches_compares_keys_not_entries() {
    let mut t: T = Tables::new();
    let ax = R::make_resource(&mut t, 0, "a/*", 0);
    let ab1 = R::make_resource(&mut t, 0, "a/b", 0);
    R::match_resource(&mut t, ab1, vec![ax, ab1]);
    R::clean(&mut t, ab1);
    assert!(!R::matches(&t, ax, ab1));
    let ab2 = R::make_resource(&mut t, 0, "a/b", 0);
    assert_ne!(ab1, ab2);
    R::match_resource(&mut t, ab2, vec![ax, ab2]);
    assert!(R::matches(&t, ax, ab2));
    assert!(R::matches(&t, ax, ab1));
}

#[test]
fn clean_chain_keeps_later_matches_of_earlier() {
    let mut t: T = Tables::new();
    let a = R::make_resource(&mut t, 0, "a", 0);
    let ab = R::make_resource(&mut t, 0, "a/b", 0);
    R::match_resource(&mut t, a, vec![a]);
    R::match_resource(&mut t, ab, vec![ab, a]);
    R::clean(&mut t, ab);
    assert_eq!(R::get_resource(&t, 0, "a"), None);
    // "a/b" went first and still lists "a"; "a" no longer lists "a/b"
    assert_eq!(t.resources[ab].context.as_ref().unwrap().matches, vec![ab, a]);
    assert_eq!(t.resources[a].context.as_ref().unwrap().matches, vec![a]);
}
