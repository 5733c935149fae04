//! Reading what a resource keeps: its routing context, its routes, the
//! interceptor caches of its sessions, and text renderings of resources.

use std::sync::Arc;
use vstd::prelude::*;
use crate::context::{
    Direction, NodeId, QueryTargetQablSet, ResourceContext, Route, WhatAmI,
};
use crate::declare::session_at;
use crate::tree::{Resource, Tables};

verus! {

/// The data route of resource `res` for `whatami` in routing context
/// `context`: none without a routing context or while its data routes are
/// not valid.
pub open spec fn data_route_of<H, X>(
    t: &Tables<H, X>,
    res: int,
    whatami: WhatAmI,
    context: NodeId,
) -> Option<Arc<Route>> {
    match t.resources@[res].context {
        Some(ctx) => if ctx.valid_data_routes {
            ctx.data_routes.route_at(whatami, context)
        } else {
            None
        },
        None => None,
    }
}

/// The query route of resource `res`, as `data_route_of` for queries.
pub open spec fn query_route_of<H, X>(
    t: &Tables<H, X>,
    res: int,
    whatami: WhatAmI,
    context: NodeId,
) -> Option<Arc<QueryTargetQablSet>> {
    match t.resources@[res].context {
        Some(ctx) => if ctx.valid_query_routes {
            ctx.query_routes.route_at(whatami, context)
        } else {
            None
        },
        None => None,
    }
}

/// The text `print_tree` gives for the subtree of `n`: the key of `n` on a
/// line, then the texts of its children in order.
pub open spec fn tree_text<H, X>(t: &Tables<H, X>, n: int) -> Seq<char>
    decreases t.len() - n, t.children_of(n).len() + 1,
{
    if 0 <= n < t.len() {
        t.expr_of(n).push('\n') + kids_text(t, n, t.children_of(n).len() as int)
    } else {
        seq![]
    }
}

/// The texts of the first `k` children of `n`.
pub open spec fn kids_text<H, X>(t: &Tables<H, X>, n: int, k: int) -> Seq<char>
    decreases t.len() - n, k,
{
    if 0 <= n < t.len() && 0 < k <= t.children_of(n).len() {
        let c = t.children_of(n)[k - 1] as int;
        kids_text(t, n, k - 1) + if n < c < t.len() {
            tree_text(t, c)
        } else {
            seq![]
        }
    } else {
        seq![]
    }
}

/// The `Debug` text std writes for a list of strings (`format!("{:?}")`).
pub uninterp spec fn debug_strings(v: Seq<Seq<char>>) -> Seq<char>;

/// The alternate `Debug` text std writes for a string (`format!("{:#?}")`).
pub uninterp spec fn pretty_debug_str(s: Seq<char>) -> Seq<char>;

/// Calls std's `Debug` formatting (`format!("{:?}")`) on a list of strings;
/// claims only that the text is the name `debug_strings` of the strings.
#[verifier::external_body]
fn debug_string_list(v: &Vec<String>) -> (r: String)
    ensures
        r@ == debug_strings(string_views(v@)),
{
    format!("{:?}", v)
}

/// Calls std's alternate `Debug` formatting (`format!("{:#?}")`) on a
/// string; claims only that the text is the name `pretty_debug_str` of it.
#[verifier::external_body]
fn pretty_debug(s: &str) -> (r: String)
    ensures
        r@ == pretty_debug_str(s@),
{
    format!("{:#?}", s)
}

/// `text` is a `Debug` text std can write for the route `route`. It is
/// only a relation: std lists a hash map in the order the map is walked,
/// which the process-seeded hasher decides, so one route has many texts.
pub uninterp spec fn route_text(route: Map<usize, Direction>, text: Seq<char>) -> bool;

/// Calls std's `Debug` formatting (`format!("{:?}")`) on a route; claims only
/// that the text is one `route_text` allows for that route.
#[verifier::external_body]
fn debug_route(route: &Arc<Route>) -> (r: String)
    ensures
        route_text(route@, r@),
{
    format!("{:?}", route)
}

/// The text `format_for_no_recursive` gives for resource `i`.
pub open spec fn no_recursive_text<H, X>(t: &Tables<H, X>, i: int) -> Seq<char> {
    "Resource { suffix: "@ + t.suffix_of(i) + ", full_expr: "@ + t.expr_of(i) + "}"@
}

/// The texts `format_for_no_recursive` gives for the entries of `ms` that
/// name a resource of the tables, in order.
pub open spec fn match_texts<H, X>(t: &Tables<H, X>, ms: Seq<usize>) -> Seq<Seq<char>>
    decreases ms.len(),
{
    if ms.len() == 0 {
        seq![]
    } else {
        let rest = match_texts(t, ms.drop_last());
        if (ms.last() as int) < t.len() {
            rest.push(no_recursive_text(t, ms.last() as int))
        } else {
            rest
        }
    }
}

/// The texts of a list of strings.
pub open spec fn string_views(v: Seq<String>) -> Seq<Seq<char>> {
    v.map_values(|x: String| x@)
}

/// The suffixes of the children of `res`, in order.
pub open spec fn kid_suffixes<H, X>(t: &Tables<H, X>, res: int) -> Seq<Seq<char>> {
    t.children_of(res).map_values(|c: usize| t.suffix_of(c as int))
}

/// The text `format_excluding_matches` gives, from the suffix, the rendered
/// children and the rendered routes.
pub open spec fn excluding_text(suffix: Seq<char>, kids: Seq<char>, routes: Seq<char>) -> Seq<char> {
    "Resource { suffix: "@ + suffix + ", children: "@ + kids + ", "@ + routes + "}"@
}

/// The rendered data routes, from the joined texts of the route tables of
/// each role.
pub open spec fn routes_text(a: Seq<char>, b: Seq<char>, c: Seq<char>) -> Seq<char> {
    "data_routes: {\n                routers: ["@ + pretty_debug_str(a)
        + "],\n                peers: ["@ + pretty_debug_str(b)
        + "],\n                clients: ["@ + pretty_debug_str(c) + "]}"@
}

/// The texts of `ts` joined by `,` and a line break.
pub open spec fn join_lines(ts: Seq<Seq<char>>) -> Seq<char>
    decreases ts.len(),
{
    if ts.len() == 0 {
        seq![]
    } else if ts.len() == 1 {
        ts[0]
    } else {
        join_lines(ts.drop_last()) + ",\n"@ + ts.last()
    }
}

/// `ts` holds, in order, a `Debug` text for each route of `v`.
pub open spec fn renders(v: Seq<Arc<Route>>, ts: Seq<Seq<char>>) -> bool {
    &&& ts.len() == v.len()
    &&& forall|i: int| 0 <= i < v.len() ==> route_text(v[i]@, #[trigger] ts[i])
}

/// The `Debug` texts of the routes of `v`, joined by `,` and a line break;
/// the texts themselves are given back too.
fn join_routes(v: &Vec<Arc<Route>>) -> (r: (String, Ghost<Seq<Seq<char>>>))
    ensures
        renders(v@, r.1@),
        r.0@ == join_lines(r.1@),
{
    let mut acc = String::new();
    let ghost mut ts: Seq<Seq<char>> = seq![];
    let mut k: usize = 0;
    while k < v.len()
        invariant
            0 <= k <= v@.len(),
            ts.len() == k,
            forall|i: int| 0 <= i < k ==> route_text(v@[i]@, #[trigger] ts[i]),
            acc@ == join_lines(ts),
        decreases v@.len() - k,
    {
        let ghost before = ts;
        if k > 0 {
            acc = acc.concat(",\n");
        }
        let d = debug_route(&v[k]);
        acc = acc.concat(d.as_str());
        proof {
            ts = ts.push(d@);
            assert(ts.drop_last() =~= before);
            if k == 0 {
                assert(acc@ =~= d@);
            }
        }
        k = k + 1;
    }
    (acc, Ghost(ts))
}

impl<H, X> Resource<H, X> {
    /// The routing context of `res`, which must have one.
    pub fn context(tables: &Tables<H, X>, res: usize) -> (r: &ResourceContext<H>)
        requires
            (res as int) < tables.len(),
            tables.has_context(res as int),
        ensures
            *r == tables.resources@[res as int].context->0,
    {
        tables.resources[res].context.as_ref().unwrap()
    }

    /// The routing context of `res`, which must have one, to change in
    /// place; nothing else of the tables changes.
    pub fn context_mut(tables: &mut Tables<H, X>, res: usize) -> (r: &mut ResourceContext<H>)
        requires
            (res as int) < old(tables).len(),
            old(tables).has_context(res as int),
        ensures
            *r == old(tables).resources@[res as int].context->0,
            final(tables).root_res == old(tables).root_res,
            final(tables).resources@ == old(tables).resources@.update(
                res as int,
                (Resource { context: Some(*final(r)), ..old(tables).resources@[res as int] }),
            ),
    {
        tables.resources[res].context.as_mut().unwrap()
    }

    /// The data route of `res` for `whatami` in routing context `context`,
    /// if its routes are valid and one was computed.
    pub fn data_route(tables: &Tables<H, X>, res: usize, whatami: WhatAmI, context: NodeId) -> (r:
        Option<Arc<Route>>)
        requires
            (res as int) < tables.len(),
        ensures
            r == data_route_of(tables, res as int, whatami, context),
    {
        match &tables.resources[res].context {
            Some(ctx) => {
                if ctx.valid_data_routes {
                    ctx.data_routes.get_route(whatami, context)
                } else {
                    None
                }
            },
            None => None,
        }
    }

    /// The query route of `res` for `whatami` in routing context `context`,
    /// if its routes are valid and one was computed.
    pub fn query_route(tables: &Tables<H, X>, res: usize, whatami: WhatAmI, context: NodeId) -> (r:
        Option<Arc<QueryTargetQablSet>>)
        requires
            (res as int) < tables.len(),
        ensures
            r == query_route_of(tables, res as int, whatami, context),
    {
        match &tables.resources[res].context {
            Some(ctx) => {
                if ctx.valid_query_routes {
                    ctx.query_routes.get_route(whatami, context)
                } else {
                    None
                }
            },
            None => None,
        }
    }

    /// The ingress interceptor cache of the session of face `face` on `res`.
    pub fn get_ingress_cache(tables: &Tables<H, X>, res: usize, face: usize) -> (r: Option<&X>)
        requires
            (res as int) < tables.len(),
        ensures
            r is Some <==> (session_at(tables, res as int, face) matches Some(c)
                && c.in_interceptor_cache is Some),
            r matches Some(x) ==> *x == session_at(
                tables,
                res as int,
                face,
            )->0.in_interceptor_cache->0,
    {
        broadcast use vstd::std_specs::hash::group_hash_axioms;

        match tables.resources[res].session_ctxs.get(&face) {
            Some(ctx) => ctx.in_interceptor_cache.as_ref(),
            None => None,
        }
    }

    /// The egress interceptor cache of the session of face `face` on `res`.
    pub fn get_egress_cache(tables: &Tables<H, X>, res: usize, face: usize) -> (r: Option<&X>)
        requires
            (res as int) < tables.len(),
        ensures
            r is Some <==> (session_at(tables, res as int, face) matches Some(c)
                && c.e_interceptor_cache is Some),
            r matches Some(x) ==> *x == session_at(
                tables,
                res as int,
                face,
            )->0.e_interceptor_cache->0,
    {
        broadcast use vstd::std_specs::hash::group_hash_axioms;

        match tables.resources[res].session_ctxs.get(&face) {
            Some(ctx) => ctx.e_interceptor_cache.as_ref(),
            None => None,
        }
    }

    /// Resources are equal when their keys are.
    pub fn same_key(tables: &Tables<H, X>, a: usize, b: usize) -> (r: bool)
        requires
            tables.wf(),
            (a as int) < tables.len(),
            (b as int) < tables.len(),
        ensures
            r == (tables.expr_of(a as int) == tables.expr_of(b as int)),
    {
        let ka = Self::expr(tables, a);
        let kb = Self::expr(tables, b);
        ka == kb
    }

    /// The `Debug` text of the matches of `res`, each written as
    /// `format_for_no_recursive` writes it; entries that name no resource of
    /// the tables are passed over.
    pub fn context_matches_text(tables: &Tables<H, X>, res: usize) -> (s: String)
        requires
            tables.wf(),
            (res as int) < tables.len(),
            tables.has_context(res as int),
        ensures
            s@ == debug_strings(match_texts(tables, tables.matches_of(res as int))),
    {
        let ms = &tables.resources[res].context.as_ref().unwrap().matches;
        let n = tables.resources.len();
        let mut texts: Vec<String> = Vec::new();
        let mut k: usize = 0;
        while k < ms.len()
            invariant
                tables.wf(),
                n == tables.len(),
                ms@ == tables.matches_of(res as int),
                0 <= k <= ms@.len(),
                string_views(texts@) == match_texts(tables, ms@.take(k as int)),
            decreases ms@.len() - k,
        {
            let m = ms[k];
            let ghost before = texts@;
            proof {
                assert(ms@.take(k as int + 1).drop_last() =~= ms@.take(k as int));
                assert(ms@.take(k as int + 1).last() == m);
            }
            if m < n {
                let t = Self::format_for_no_recursive(tables, m);
                texts.push(t);
                proof {
                    assert(string_views(texts@) =~= string_views(before).push(t@));
                }
            }
            k = k + 1;
        }
        proof {
            assert(ms@.take(ms@.len() as int) =~= ms@);
        }
        debug_string_list(&texts)
    }

    /// `res` rendered with its suffix, its children's suffixes and its data
    /// routes, leaving out its matches.
    pub fn format_excluding_matches(tables: &Tables<H, X>, res: usize) -> (s: String)
        requires
            tables.wf(),
            (res as int) < tables.len(),
        ensures
            !tables.has_context(res as int) ==> s@ == excluding_text(
                tables.suffix_of(res as int),
                debug_strings(kid_suffixes(tables, res as int)),
                "data_routes: None"@,
            ),
            tables.has_context(res as int) ==> ({
                let routes = tables.resources@[res as int].context->0.data_routes;
                exists|ta: Seq<Seq<char>>, tb: Seq<Seq<char>>, tc: Seq<Seq<char>>|
                    #![trigger renders(routes.routers@, ta), renders(routes.peers@, tb), renders(routes.clients@, tc)]
                    renders(routes.routers@, ta) && renders(routes.peers@, tb) && renders(
                        routes.clients@,
                        tc,
                    ) && s@ == excluding_text(
                        tables.suffix_of(res as int),
                        debug_strings(kid_suffixes(tables, res as int)),
                        routes_text(join_lines(ta), join_lines(tb), join_lines(tc)),
                    )
            }),
    {
        let node = &tables.resources[res];
        let ghost seen: (Seq<Seq<char>>, Seq<Seq<char>>, Seq<Seq<char>>) = (seq![], seq![], seq![]);
        let texts = match &node.context {
            Some(ctx) => {
                let (a, ga) = join_routes(&ctx.data_routes.routers);
                let (b, gb) = join_routes(&ctx.data_routes.peers);
                let (c, gc) = join_routes(&ctx.data_routes.clients);
                proof {
                    seen = (ga@, gb@, gc@);
                }
                Some((a, b, c))
            },
            None => None,
        };
        let mut kids: Vec<String> = Vec::new();
        let mut k: usize = 0;
        proof {
            assert(tables.node_wf(res as int));
        }
        while k < node.children.len()
            invariant
                tables.wf(),
                (res as int) < tables.len(),
                node == tables.resources@[res as int],
                0 <= k <= node.children@.len(),
                kids@.len() == k,
                string_views(kids@) == kid_suffixes(tables, res as int).take(k as int),
            decreases node.children@.len() - k,
        {
            let c = node.children[k];
            proof {
                assert(tables.node_wf(res as int));
                assert(tables.child_ok(res as int, node.children@[k as int] as int));
            }
            let sfx = tables.resources[c].suffix.clone();
            let ghost before = kids@;
            kids.push(sfx);
            proof {
                assert(kids@ == before.push(sfx));
                assert(sfx@ == tables.suffix_of(c as int));
                assert(kid_suffixes(tables, res as int)[k as int] == tables.suffix_of(c as int));
                assert forall|j: int| 0 <= j < k as int + 1 implies #[trigger] string_views(kids@)[j]
                    == kid_suffixes(tables, res as int).take(k as int + 1)[j] by {
                    assert(string_views(kids@)[j] == kids@[j]@);
                    if j < k {
                        assert(kids@[j] == before[j]);
                        assert(string_views(before)[j] == before[j]@);
                        assert(string_views(before)[j] == kid_suffixes(tables, res as int).take(
                            k as int,
                        )[j]);
                    } else {
                        assert(kids@[j] == sfx);
                    }
                }
                assert(string_views(kids@) =~= kid_suffixes(tables, res as int).take(
                    k as int + 1,
                ));
            }
            k = k + 1;
        }
        proof {
            assert(kid_suffixes(tables, res as int).take(node.children@.len() as int)
                =~= kid_suffixes(tables, res as int));
        }
        let kids_text = debug_string_list(&kids);
        let s = match &texts {
            Some((a, b, c)) => Self::excluding_matches_text(
                node.suffix.as_str(),
                kids_text.as_str(),
                Some((a.as_str(), b.as_str(), c.as_str())),
            ),
            None => Self::excluding_matches_text(node.suffix.as_str(), kids_text.as_str(), None),
        };
        proof {
            if tables.has_context(res as int) {
                let (ta, tb, tc) = seen;
                let routes = tables.resources@[res as int].context->0.data_routes;
                assert(renders(routes.routers@, ta) && renders(routes.peers@, tb) && renders(
                    routes.clients@,
                    tc,
                ));
            }
        }
        s
    }

    /// The text `format_excluding_matches` builds from a suffix, the text of
    /// the children, and the joined texts of the routes of each role when
    /// there is a routing context.
    pub fn excluding_matches_text(suffix: &str, kids: &str, routes: Option<(&str, &str, &str)>) -> (s:
        String)
        ensures
            s@ == excluding_text(
                suffix@,
                kids@,
                match routes {
                    Some((a, b, c)) => routes_text(a@, b@, c@),
                    None => "data_routes: None"@,
                },
            ),
    {
        let routes_part = match routes {
            Some((a, b, c)) => String::from_str("data_routes: {\n                routers: [").concat(
                pretty_debug(a).as_str(),
            ).concat("],\n                peers: [").concat(pretty_debug(b).as_str()).concat(
                "],\n                clients: [",
            ).concat(pretty_debug(c).as_str()).concat("]}"),
            None => String::from_str("data_routes: None"),
        };
        String::from_str("Resource { suffix: ").concat(suffix).concat(", children: ").concat(
            kids,
        ).concat(", ").concat(routes_part.as_str()).concat("}")
    }

    /// `Resource { suffix: <suffix>, full_expr: <key>}` for `res`.
    pub fn format_for_no_recursive(tables: &Tables<H, X>, res: usize) -> (s: String)
        requires
            tables.wf(),
            (res as int) < tables.len(),
        ensures
            s@ == no_recursive_text(tables, res as int),
    {
        let expr = Self::expr(tables, res);
        String::from_str("Resource { suffix: ").concat(tables.resources[res].suffix.as_str()).concat(
            ", full_expr: ",
        ).concat(expr.as_str()).concat("}")
    }

    /// The keys of `from` and of every resource below it, one per line,
    /// each resource before its children.
    pub fn print_tree(tables: &Tables<H, X>, from: usize) -> (s: String)
        requires
            tables.wf(),
            (from as int) < tables.len(),
        ensures
            s@ == tree_text(tables, from as int),
        decreases tables.len() - from,
    {
        let mut result = Self::expr(tables, from).concat("\n");
        proof {
            reveal_strlit("\n");
            assert(result@ =~= tables.expr_of(from as int).push('\n'));
        }
        let children = &tables.resources[from].children;
        let mut k: usize = 0;
        while k < children.len()
            invariant
                tables.wf(),
                (from as int) < tables.len(),
                children@ == tables.children_of(from as int),
                0 <= k <= children@.len(),
                result@ == tables.expr_of(from as int).push('\n') + kids_text(
                    tables,
                    from as int,
                    k as int,
                ),
            decreases children@.len() - k,
        {
            let c = children[k];
            proof {
                assert(tables.node_wf(from as int));
                assert(tables.child_ok(from as int, children@[k as int] as int));
            }
            let sub = Self::print_tree(tables, c);
            result = result.concat(sub.as_str());
            proof {
                assert(result@ =~= tables.expr_of(from as int).push('\n') + kids_text(
                    tables,
                    from as int,
                    k as int + 1,
                ));
            }
            k = k + 1;
        }
        result
    }

    /// Renders nothing: kept for callers that ask for one layer of a
    /// resource.
    pub fn format_one_layer(&self) {
    }
}

} // verus!
