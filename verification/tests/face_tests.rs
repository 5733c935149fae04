use std::collections::HashMap;
use std::sync::Arc;
use zenoh_resource::context::{
    DataRoutes, Mapping, QueryRoutes, QueryTargetQabl, Routes, RoutesIndexes, WhatAmI, WireExpr,
};
use zenoh_resource::face::FaceState;
use zenoh_resource::register::{
    register_expr, register_expr_interest, unregister_expr, unregister_expr_interest,
    Registration,
};
use zenoh_resource::tree::{Resource, Tables};

type T = Tables<u32, u32>;
type R = Resource<u32, u32>;

fn plain(s: &str) -> WireExpr {
    WireExpr::from_string(s.to_string())
}

#[test]
fn wire_expr_constructors() {
    let w = plain("a/b");
    assert_eq!(w.scope, 0);
    assert_eq!(w.suffix, "a/b");
    assert_eq!(w.mapping, Mapping::Sender);
    let w = WireExpr::scoped(4, "/c".to_string(), Mapping::Receiver);
    assert_eq!(w.scope, 4);
    assert_eq!(w.suffix, "/c");
    assert_eq!(w.mapping, Mapping::Receiver);
}

#[test]
fn face_mappings_by_side() {
    let mut f = FaceState::new(3);
    assert_eq!(f.id, 3);
    f.remote_mappings.insert(1, 10);
    f.local_mappings.insert(1, 20);
    assert_eq!(f.get_mapping(1, Mapping::Sender), Some(10));
    assert_eq!(f.get_mapping(1, Mapping::Receiver), Some(20));
    assert_eq!(f.get_mapping(2, Mapping::Sender), None);
    let t: T = Tables::new();
    assert_eq!(t.get_mapping(&f, 0, Mapping::Sender), Some(0));
    assert_eq!(t.get_mapping(&f, 1, Mapping::Receiver), Some(20));
}

#[test]
fn next_local_id_skips_both_sides() {
    let mut f = FaceState::new(1);
    assert_eq!(f.get_next_local_id(), 1);
    f.local_mappings.insert(1, 0);
    f.local_mappings.insert(2, 0);
    assert_eq!(f.get_next_local_id(), 3);
    f.remote_mappings.insert(3, 0);
    assert_eq!(f.get_next_local_id(), 4);
}

#[test]
fn register_expr_declares_and_maps() {
    let mut t: T = Tables::new();
    let mut f = FaceState::new(1);
    let r = register_expr(&mut t, &mut f, 5, &plain("a/b"), 9);
    let x = match r {
        Registration::Declared(x) => x,
        other => panic!("unexpected {:?}", other),
    };
    assert_eq!(R::expr(&t, x), "a/b");
    assert_eq!(f.remote_mappings.get(&5), Some(&x));
    assert_eq!(t.resources[x].holders, 1);
    assert_eq!(t.resources[x].session_ctxs.get(&1).unwrap().remote_expr_id, Some(5));
    assert_eq!(t.resources[x].context.as_ref().unwrap().hat, 9);
    // the new resource matches itself
    assert!(R::matches(&t, x, x));
}

#[test]
fn register_expr_same_id_again() {
    let mut t: T = Tables::new();
    let mut f = FaceState::new(1);
    register_expr(&mut t, &mut f, 5, &plain("a/b"), 0);
    let n = t.resources.len();
    assert_eq!(register_expr(&mut t, &mut f, 5, &plain("a/b"), 0), Registration::Unchanged);
    assert_eq!(register_expr(&mut t, &mut f, 5, &plain("a/c"), 0), Registration::RemapRefused);
    assert_eq!(t.resources.len(), n);
    assert_eq!(R::get_resource(&t, 0, "a/c"), None);
}

#[test]
fn register_expr_unknown_scope() {
    let mut t: T = Tables::new();
    let mut f = FaceState::new(1);
    let w = WireExpr::scoped(7, "/c".to_string(), Mapping::Sender);
    assert_eq!(register_expr(&mut t, &mut f, 8, &w, 0), Registration::UnknownScope);
    assert!(f.remote_mappings.is_empty());
    assert_eq!(t.resources.len(), 1);
}

#[test]
fn register_expr_with_declared_scope() {
    let mut t: T = Tables::new();
    let mut f = FaceState::new(1);
    register_expr(&mut t, &mut f, 5, &plain("a/b"), 0);
    let w = WireExpr::scoped(5, "/c".to_string(), Mapping::Sender);
    let y = match register_expr(&mut t, &mut f, 6, &w, 0) {
        Registration::Declared(y) => y,
        other => panic!("unexpected {:?}", other),
    };
    assert_eq!(R::expr(&t, y), "a/b/c");
    assert_eq!(t.get_mapping(&f, 6, Mapping::Sender), Some(y));
}

#[test]
fn register_expr_matches_existing_resources() {
    let mut t: T = Tables::new();
    let mut f = FaceState::new(1);
    let ax = match register_expr(&mut t, &mut f, 1, &plain("a/*"), 0) {
        Registration::Declared(x) => x,
        other => panic!("unexpected {:?}", other),
    };
    let ab = match register_expr(&mut t, &mut f, 2, &plain("a/b"), 0) {
        Registration::Declared(x) => x,
        other => panic!("unexpected {:?}", other),
    };
    assert!(R::matches(&t, ab, ax));
    assert!(R::matches(&t, ax, ab));
}

#[test]
fn unregister_expr_cleans_resource() {
    let mut t: T = Tables::new();
    let mut f = FaceState::new(1);
    register_expr(&mut t, &mut f, 5, &plain("a/b"), 0);
    let w = WireExpr::scoped(5, "/c".to_string(), Mapping::Sender);
    register_expr(&mut t, &mut f, 6, &w, 0);
    assert!(unregister_expr(&mut t, &mut f, 6));
    assert_eq!(R::get_resource(&t, 0, "a/b/c"), None);
    assert!(R::get_resource(&t, 0, "a/b").is_some());
    assert!(unregister_expr(&mut t, &mut f, 5));
    assert_eq!(R::get_resource(&t, 0, "a/b"), None);
    assert_eq!(R::get_resource(&t, 0, "a"), None);
    assert!(f.remote_mappings.is_empty());
    assert!(!unregister_expr(&mut t, &mut f, 5));
}

#[test]
fn interest_in_resource_and_in_all() {
    let mut t: T = Tables::new();
    let mut f = FaceState::new(1);
    assert!(register_expr_interest(&mut t, &mut f, 3, Some(&plain("a/b")), 4));
    let x = R::get_resource(&t, 0, "a/b").unwrap();
    assert_eq!(f.remote_key_interests.get(&3), Some(&Some(x)));
    assert_eq!(t.resources[x].holders, 1);
    assert!(f.is_interested(&t, x));
    assert!(!f.is_interested(&t, 1));
    assert!(register_expr_interest(&mut t, &mut f, 4, None, 0));
    assert_eq!(f.remote_key_interests.get(&4), Some(&None));
    assert!(f.is_interested(&t, 1));
    unregister_expr_interest(&mut t, &mut f, 3);
    assert_eq!(t.resources[x].holders, 0);
    assert!(f.remote_key_interests.get(&3).is_none());
    let w = WireExpr::scoped(9, "/c".to_string(), Mapping::Sender);
    assert!(!register_expr_interest(&mut t, &mut f, 5, Some(&w), 0));
    assert!(f.remote_key_interests.get(&5).is_none());
}

#[test]
fn interest_replaced_releases_holder() {
    let mut t: T = Tables::new();
    let mut f = FaceState::new(1);
    register_expr_interest(&mut t, &mut f, 3, Some(&plain("a/b")), 0);
    let x = R::get_resource(&t, 0, "a/b").unwrap();
    register_expr_interest(&mut t, &mut f, 3, Some(&plain("c")), 0);
    let y = R::get_resource(&t, 0, "c").unwrap();
    assert_eq!(t.resources[x].holders, 0);
    assert_eq!(t.resources[y].holders, 1);
    assert_eq!(f.remote_key_interests.get(&3), Some(&Some(y)));
}

#[test]
fn decl_key_declares_once() {
    let mut t: T = Tables::new();
    let mut f = FaceState::new(1);
    let ab = R::make_resource(&mut t, 0, "a/b", 0);
    let (w, d) = R::decl_key(&mut t, ab, &mut f, true);
    let d = d.unwrap();
    assert_eq!(d.id, 1);
    assert_eq!(d.wire_expr.scope, 0);
    assert_eq!(d.wire_expr.suffix, "a/b");
    assert_eq!((w.scope, w.suffix.as_str(), w.mapping), (1, "", Mapping::Sender));
    assert_eq!(f.local_mappings.get(&1), Some(&ab));
    assert_eq!(t.resources[ab].holders, 1);
    let (w2, d2) = R::decl_key(&mut t, ab, &mut f, true);
    assert!(d2.is_none());
    assert_eq!((w2.scope, w2.suffix.as_str(), w2.mapping), (1, "", Mapping::Sender));
}

#[test]
fn decl_key_of_wild_resource_uses_prefix() {
    let mut t: T = Tables::new();
    let mut f = FaceState::new(1);
    let wild = R::make_resource(&mut t, 0, "a/*/c", 0);
    let (w, d) = R::decl_key(&mut t, wild, &mut f, true);
    let d = d.unwrap();
    assert_eq!(d.wire_expr.suffix, "a");
    assert_eq!((w.scope, w.suffix.as_str()), (d.id, "/*/c"));
    let top = R::make_resource(&mut t, 0, "*/x", 0);
    let (w, d) = R::decl_key(&mut t, top, &mut f, true);
    assert!(d.is_none());
    assert_eq!((w.scope, w.suffix.as_str()), (0, "*/x"));
}

#[test]
fn decl_key_without_push_or_interest() {
    let mut t: T = Tables::new();
    let mut f = FaceState::new(1);
    let ab = R::make_resource(&mut t, 0, "a/b", 0);
    let (w, d) = R::decl_key(&mut t, ab, &mut f, false);
    assert!(d.is_none());
    assert_eq!((w.scope, w.suffix.as_str()), (0, "a/b"));
    assert!(f.local_mappings.is_empty());
}

#[test]
fn decl_key_uses_remote_id() {
    let mut t: T = Tables::new();
    let mut f = FaceState::new(1);
    let ab = match register_expr(&mut t, &mut f, 7, &plain("a/b"), 0) {
        Registration::Declared(x) => x,
        other => panic!("unexpected {:?}", other),
    };
    let (w, d) = R::decl_key(&mut t, ab, &mut f, true);
    assert!(d.is_none());
    assert_eq!((w.scope, w.suffix.as_str(), w.mapping), (7, "", Mapping::Receiver));
}

#[test]
fn best_key_walks_down_then_up() {
    let mut t: T = Tables::new();
    let mut f = FaceState::new(1);
    let ab = R::make_resource(&mut t, 0, "a/b", 0);
    let w = R::get_best_key(&t, 0, "a/b/c", 1);
    assert_eq!((w.scope, w.suffix.as_str()), (0, "a/b/c"));
    R::decl_key(&mut t, 1, &mut f, true);
    let w = R::get_best_key(&t, 0, "a/b/c", 1);
    assert_eq!((w.scope, w.suffix.as_str(), w.mapping), (1, "/b/c", Mapping::Sender));
    let w = R::get_best_key(&t, ab, "", 1);
    assert_eq!((w.scope, w.suffix.as_str()), (1, "/b"));
    let w = R::get_best_key(&t, 0, "a/b/c", 2);
    assert_eq!((w.scope, w.suffix.as_str()), (0, "a/b/c"));
}

#[test]
fn routes_follow_validity() {
    let mut t: T = Tables::new();
    let ab = R::make_resource(&mut t, 0, "a/b", 0);
    assert!(R::data_route(&t, ab, WhatAmI::Router, 0).is_none());
    assert!(R::data_route(&t, 1, WhatAmI::Router, 0).is_none());
    let mut routes: DataRoutes = Routes::new();
    routes.routers.push(Arc::new(HashMap::new()));
    R::context_mut(&mut t, ab).update_data_routes(routes);
    assert!(R::data_route(&t, ab, WhatAmI::Router, 0).is_some());
    assert!(R::data_route(&t, ab, WhatAmI::Router, 1).is_none());
    assert!(R::data_route(&t, ab, WhatAmI::Peer, 0).is_none());
    t.resources[ab].context.as_mut().unwrap().disable_data_routes();
    assert!(R::data_route(&t, ab, WhatAmI::Router, 0).is_none());

    assert!(R::query_route(&t, ab, WhatAmI::Client, 0).is_none());
    let mut q: QueryRoutes = Routes::new();
    q.clients.push(Arc::new(Vec::<QueryTargetQabl>::new()));
    t.resources[ab].context.as_mut().unwrap().update_query_routes(q);
    assert!(R::query_route(&t, ab, WhatAmI::Client, 0).is_some());
    t.resources[ab].context.as_mut().unwrap().disable_query_routes();
    assert!(R::query_route(&t, ab, WhatAmI::Client, 0).is_none());
}

#[test]
fn routes_get_route_by_index() {
    let mut r: Routes<u8> = Routes::new();
    assert!(r.get_route(WhatAmI::Peer, 0).is_none());
    r.peers.push(Arc::new(1));
    r.peers.push(Arc::new(2));
    assert_eq!(r.get_route(WhatAmI::Peer, 1).map(|a| *a), Some(2));
    assert!(r.get_route(WhatAmI::Router, 1).is_none());
    let ix = RoutesIndexes::new();
    assert!(ix.routers.is_empty() && ix.peers.is_empty() && ix.clients.is_empty());
}

#[test]
fn interceptor_caches_per_session() {
    let mut t: T = Tables::new();
    let mut f = FaceState::new(1);
    let x = match register_expr(&mut t, &mut f, 5, &plain("a"), 0) {
        Registration::Declared(x) => x,
        other => panic!("unexpected {:?}", other),
    };
    assert!(R::get_ingress_cache(&t, x, 1).is_none());
    assert!(R::get_egress_cache(&t, x, 1).is_none());
    t.resources[x].session_ctxs.get_mut(&1).unwrap().in_interceptor_cache = Some(42);
    t.resources[x].session_ctxs.get_mut(&1).unwrap().e_interceptor_cache = Some(43);
    assert_eq!(R::get_ingress_cache(&t, x, 1), Some(&42));
    assert_eq!(R::get_egress_cache(&t, x, 1), Some(&43));
    assert!(R::get_ingress_cache(&t, x, 2).is_none());
}

#[test]
fn register_then_unregister_restores_face() {
    let mut t: T = Tables::new();
    let mut f = FaceState::new(1);
    register_expr(&mut t, &mut f, 2, &plain("x"), 0);
    let before = f.remote_mappings.clone();
    register_expr(&mut t, &mut f, 5, &plain("a/b"), 0);
    assert_ne!(f.remote_mappings, before);
    unregister_expr(&mut t, &mut f, 5);
    assert_eq!(f.remote_mappings, before);
}

#[test]
fn interest_then_unregister_restores_face() {
    let mut t: T = Tables::new();
    let mut f = FaceState::new(1);
    register_expr_interest(&mut t, &mut f, 1, None, 0);
    let before = f.remote_key_interests.clone();
    register_expr_interest(&mut t, &mut f, 2, Some(&plain("a")), 0);
    unregister_expr_interest(&mut t, &mut f, 2);
    assert_eq!(f.remote_key_interests, before);
}

#[test]
fn declared_id_names_prefix_of_key() {
    let mut t: T = Tables::new();
    let mut f = FaceState::new(1);
    let wild = R::make_resource(&mut t, 0, "a/b/*/c", 0);
    let (w, d) = R::decl_key(&mut t, wild, &mut f, true);
    let id = d.unwrap().id;
    let p = t.get_mapping(&f, id, Mapping::Receiver).unwrap();
    assert_eq!(w.scope, id);
    assert_eq!(R::expr(&t, p) + w.suffix.as_str(), R::expr(&t, wild));
}

#[test]
fn make_again_after_other_declarations() {
    let mut t: T = Tables::new();
    let mut f = FaceState::new(1);
    let ab = R::make_resource(&mut t, 0, "a/b", 0);
    register_expr(&mut t, &mut f, 5, &plain("a/c"), 0);
    register_expr_interest(&mut t, &mut f, 1, Some(&plain("x")), 0);
    R::decl_key(&mut t, ab, &mut f, true);
    assert_eq!(R::get_resource(&t, 0, "a/b"), Some(ab));
    let n = t.resources.len();
    assert_eq!(R::make_resource(&mut t, 0, "a/b", 9), ab);
    assert_eq!(t.resources.len(), n);
    assert_eq!(t.resources[ab].context.as_ref().unwrap().hat, 0);
}

#[test]
fn excluding_matches_text_assembles_parts() {
    assert_eq!(
        R::excluding_matches_text("/b", "[]", None),
        "Resource { suffix: /b, children: [], data_routes: None}"
    );
    assert_eq!(
        R::excluding_matches_text("/b", "[\"/c\"]", Some(("{}", "", "{},\n{}"))),
        "Resource { suffix: /b, children: [\"/c\"], data_routes: {\n                routers: [\"{}\"],\n                peers: [\"\"],\n                clients: [\"{},\\n{}\"]}}"
    );
}

#[test]
fn format_excluding_matches_with_routes() {
    let mut t: T = Tables::new();
    let ab = R::make_resource(&mut t, 0, "a/b", 0);
    let mut routes: DataRoutes = Routes::new();
    routes.routers.push(Arc::new(HashMap::new()));
    routes.clients.push(Arc::new(HashMap::new()));
    routes.clients.push(Arc::new(HashMap::new()));
    R::context_mut(&mut t, ab).update_data_routes(routes);
    assert_eq!(
        R::format_excluding_matches(&t, ab),
        "Resource { suffix: /b, children: [], data_routes: {\n                routers: [\"{}\"],\n                peers: [\"\"],\n                clients: [\"{},\\n{}\"]}}"
    );
}

#[test]
fn context_matches_text_lists_matches() {
    let mut t: T = Tables::new();
    let mut f = FaceState::new(1);
    let ab = match register_expr(&mut t, &mut f, 5, &plain("a/b"), 0) {
        Registration::Declared(x) => x,
        other => panic!("unexpected {:?}", other),
    };
    assert_eq!(
        R::context_matches_text(&t, ab),
        "[\"Resource { suffix: /b, full_expr: a/b}\"]"
    );
}
