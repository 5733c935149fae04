//! Properties of the resource tree that hold across operations.

use vstd::prelude::*;
use crate::cleanup::{clean_at, cleaned};
use crate::context::{DeclareKeyExpr, ExprId, InterestId, Mapping, WireExpr};
use crate::declare::{best_key, climb, decl_key_effect, descend, head_len, wire_view};
use crate::face::FaceState;
use crate::register::{
    interest_effect, provided, register_effect, registered, scope_of, Registration,
};
use crate::keyexpr::is_keyexpr;
use crate::matching::{matched, matched_at, matches_from};
use crate::resource::{made, nonwild_split};
use crate::tree::{
    has_index, lemma_attached_in_range, lemma_attached_parent, lemma_child_with_is,
    lemma_child_with_some, lemma_find_expr, lemma_find_sound, lemma_grows_lookup,
    lemma_nonwild_shape, lemma_same_shape, nonwild_shape, same_shape, Tables,
};

verus! {

/// The resource a key expression names has that key expression as its key.
pub proof fn law_found_key<H, X>(t: &Tables<H, X>, key: Seq<char>)
    requires
        t.wf(),
        t.find(key) is Some,
    ensures
        t.attached(t.find(key)->0),
        t.expr_of(t.find(key)->0) == key,
{
    lemma_find_sound(t, key);
}

/// Every attached resource is what its own key names, so two attached
/// resources never share a key.
pub proof fn law_keys_distinct<H, X>(t: &Tables<H, X>, i: int, j: int)
    requires
        t.wf(),
        t.attached(i),
        t.attached(j),
        t.expr_of(i) == t.expr_of(j),
    ensures
        i == j,
        t.find(t.expr_of(i)) == Some(i),
{
    lemma_find_expr(t, i);
    lemma_find_expr(t, j);
}

/// The key of an attached resource other than the root is the key of its
/// parent followed by its own suffix.
pub proof fn law_key_of_child<H, X>(t: &Tables<H, X>, i: int)
    requires
        t.wf(),
        t.attached(i),
        i != 0,
    ensures
        t.parent_of(i) is Some,
        t.expr_of(i) == t.expr_of(t.parent_of(i)->0 as int) + t.suffix_of(i),
{
    lemma_attached_parent(t, i);
}

/// The wildcard-free split of a key puts it back together: the key of the
/// resource given (which has no `*`) followed by the rest, or the whole key
/// when no resource is given.
pub proof fn law_nonwild_split<H, X>(t: &Tables<H, X>, res: int)
    requires
        t.wf(),
        t.attached(res),
    ensures
        match nonwild_split(t, res) {
            (Some(p), w) => t.attached(p) && t.expr_of(p) + w == t.expr_of(res) && !t.expr_of(
                p,
            ).contains('*'),
            (None, w) => w == t.expr_of(res),
        },
{
    lemma_attached_in_range(t, res);
    lemma_nonwild_shape(t, res);
    match t.nonwild_of(res) {
        None => {
            assert(t.expr_of(res) + Seq::<char>::empty() =~= t.expr_of(res));
        },
        Some((p, w)) => {},
    }
}

/// Making a resource twice for the same key gives the same resource, adds
/// nothing the second time, and leaves its routing context as it was.
pub proof fn law_make_idempotent<H, X>(
    a: &Tables<H, X>,
    b: &Tables<H, X>,
    c: &Tables<H, X>,
    key: Seq<char>,
    hat1: H,
    hat2: H,
    r1: int,
    r2: int,
)
    requires
        a.wf(),
        made(a, b, key, hat1, r1),
        made(b, c, key, hat2, r2),
    ensures
        r2 == r1,
        c.len() == b.len(),
        c.resources@[r2].context == b.resources@[r1].context,
{
    lemma_attached_in_range(b, r1);
}

/// Making a resource keeps what every key named before.
pub proof fn law_make_keeps_lookups<H, X>(
    old: &Tables<H, X>,
    new: &Tables<H, X>,
    key: Seq<char>,
    hat: H,
    r: int,
    other: Seq<char>,
)
    requires
        old.wf(),
        made(old, new, key, hat, r),
        old.find(other) is Some,
    ensures
        new.find(other) == old.find(other),
{
    lemma_grows_lookup(old, new, 0, crate::keys::chunks(other));
}

/// Matches are mutual: among attached resources with a routing context, one
/// lists another exactly when the other lists it.
pub proof fn law_matches_mutual<H, X>(t: &Tables<H, X>, i: int, k: int)
    requires
        t.wf(),
        t.attached(i),
        t.has_context(i),
        0 <= k < t.matches_of(i).len(),
    ensures
        ({
            let j = t.matches_of(i)[k] as int;
            &&& t.attached(j)
            &&& t.has_context(j)
            &&& crate::tree::has_index(t.matches_of(j), i)
        }),
{
    lemma_attached_in_range(t, i);
    assert(t.node_wf(i));
    assert(t.match_ok(i, t.matches_of(i)[k] as int));
}

/// A key expression that a face declared an id for is what that id names
/// from then on: a later expression from the face with that id as its
/// scope starts from the resource of the declared key.
pub proof fn law_declared_id_resolves<H, X>(
    old_t: &Tables<H, X>,
    new_t: &Tables<H, X>,
    old_f: &FaceState,
    new_f: &FaceState,
    expr_id: ExprId,
    expr: &WireExpr,
    hat: H,
    p: usize,
    x: usize,
)
    requires
        old_t.wf(),
        scope_of(old_f, expr.scope, expr.mapping) == Some(p),
        !old_f.remote_mappings@.contains_key(expr_id),
        register_effect(old_t, new_t, old_f, new_f, expr_id, expr, hat, Registration::Declared(x)),
        expr_id != 0,
    ensures
        scope_of(new_f, expr_id, Mapping::Sender) == Some(x),
        new_t.attached(x as int),
        new_t.expr_of(x as int) == old_t.expr_of(p as int) + expr.suffix@,
{
    let key = old_t.expr_of(p as int) + expr.suffix@;
    assert(registered(old_t, new_t, key, hat, x as int, old_f.id, expr_id));
    let mid = choose|mid: Tables<H, X>|
        #[trigger] provided(old_t, &mid, key, hat, x as int) && crate::declare::declared_at(
            &mid,
            new_t,
            x as int,
            old_f.id,
            crate::register::with_remote_id(
                crate::declare::session_at(&mid, x as int, old_f.id),
                old_f.id,
                expr_id,
            ),
        );
    lemma_attached_in_range(&mid, x as int);
    assert(same_shape(&mid, new_t)) by {
        assert forall|i: int| 0 <= i < mid.len() implies #[trigger] new_t.resources@[i].parent
            == mid.resources@[i].parent by {}
    }
    lemma_same_shape(&mid, new_t);
}

/// Declaring an id the face had not declared, then taking it back, leaves
/// the face's mappings as they were.
pub proof fn law_register_unregister<H, X>(
    t0: &Tables<H, X>,
    t1: &Tables<H, X>,
    f0: &FaceState,
    f1: &FaceState,
    f2: &FaceState,
    expr_id: ExprId,
    expr: &WireExpr,
    hat: H,
    x: usize,
)
    requires
        !f0.remote_mappings@.contains_key(expr_id),
        register_effect(t0, t1, f0, f1, expr_id, expr, hat, Registration::Declared(x)),
        f2.local_mappings@ == f1.local_mappings@,
        f2.remote_mappings@ == f1.remote_mappings@.remove(expr_id),
        f2.remote_key_interests@ == f1.remote_key_interests@,
    ensures
        f2.local_mappings@ == f0.local_mappings@,
        f2.remote_mappings@ == f0.remote_mappings@,
        f2.remote_key_interests@ == f0.remote_key_interests@,
{
    assert(f2.remote_mappings@ =~= f0.remote_mappings@);
}

/// Expressing an interest under a new id, then taking it back, leaves the
/// face's interests as they were.
pub proof fn law_interest_roundtrip<H, X>(
    t0: &Tables<H, X>,
    t1: &Tables<H, X>,
    f0: &FaceState,
    f1: &FaceState,
    f2: &FaceState,
    id: InterestId,
    expr: Option<&WireExpr>,
    hat: H,
)
    requires
        !f0.remote_key_interests@.contains_key(id),
        interest_effect(t0, t1, f0, f1, id, expr, hat, true),
        f2.remote_key_interests@ == f1.remote_key_interests@.remove(id),
    ensures
        f2.remote_key_interests@ == f0.remote_key_interests@,
{
    assert(f2.remote_key_interests@ =~= f0.remote_key_interests@);
}

/// An id that this side declares for a resource names, from the face's
/// side, the resource whose key followed by the suffix sent is the key of
/// the resource declared.
pub proof fn law_declared_key_resolves<H, X>(
    old_t: &Tables<H, X>,
    new_t: &Tables<H, X>,
    old_f: &FaceState,
    new_f: &FaceState,
    res: int,
    push: bool,
    r: (WireExpr, Option<DeclareKeyExpr>),
)
    requires
        old_t.wf(),
        old_t.attached(res),
        decl_key_effect(old_t, new_t, old_f, new_f, res, push, r),
        r.1 is Some,
    ensures
        ({
            let id = r.1->0.id;
            let p = new_f.local_mappings@[id];
            &&& id != 0
            &&& scope_of(new_f, id, Mapping::Receiver) == Some(p)
            &&& wire_view(r.0) == (id, r.0.suffix@, Mapping::Sender)
            &&& new_t.expr_of(p as int) + r.0.suffix@ == old_t.expr_of(res)
            &&& r.1->0.wire_expr.suffix@ == new_t.expr_of(p as int)
        }),
{
    lemma_attached_in_range(old_t, res);
    lemma_nonwild_shape(old_t, res);
    let (np, w) = nonwild_split(old_t, res);
    let p = np->0;
    assert(same_shape(old_t, new_t)) by {
        assert forall|i: int| 0 <= i < old_t.len() implies #[trigger] new_t.resources@[i].parent
            == old_t.resources@[i].parent by {}
    }
    lemma_same_shape(old_t, new_t);
    law_nonwild_split(old_t, res);
    lemma_attached_in_range(old_t, p);
}

/// A resource unlinked by cleaning is no longer named by its key.
pub proof fn law_cleaned_not_found<H, X>(
    old: &Tables<H, X>,
    new: &Tables<H, X>,
    gone: Set<int>,
    x: int,
    key: Seq<char>,
)
    requires
        cleaned(old, new, gone),
        gone.contains(x),
        0 <= x < old.len(),
    ensures
        new.find(key) != Some(x),
{
    assert(clean_at(old, new, gone, x));
    if new.find(key) == Some(x) {
        lemma_find_sound(new, key);
    }
}

/// The resource at which `climb` from `n` stops: the first one, from `n`
/// up, that the session `sid` declared an id for; none at the top.
pub open spec fn climb_node<H, X>(t: &Tables<H, X>, n: int, sid: usize) -> Option<int>
    decreases n,
{
    let ctxs = t.resources@[n].session_ctxs@;
    if ctxs.contains_key(sid) && (ctxs[sid].remote_expr_id is Some
        || ctxs[sid].local_expr_id is Some) {
        Some(n)
    } else {
        match t.parent_of(n) {
            Some(p) => if 0 <= p < n {
                climb_node(t, p as int, sid)
            } else {
                None
            },
            None => None,
        }
    }
}

proof fn lemma_descend<H, X>(t: &Tables<H, X>, n: int, s: Seq<char>)
    requires
        t.wf(),
        t.attached(n),
    ensures
        t.attached(descend(t, n, s).0),
        t.expr_of(descend(t, n, s).0) + descend(t, n, s).1 == t.expr_of(n) + s,
    decreases s.len(),
{
    lemma_attached_in_range(t, n);
    let e = head_len(s);
    if s.len() > 0 && 0 < e <= s.len() {
        match t.child_with(n, s.take(e)) {
            Some(m) => {
                crate::tree::lemma_child_with_some(t, n, s.take(e));
                lemma_descend(t, m, s.skip(e));
                assert(s.take(e) + s.skip(e) =~= s);
                assert(t.expr_of(n) + s.take(e) + s.skip(e) =~= t.expr_of(n) + s);
            },
            None => {},
        }
    }
}

proof fn lemma_climb<H, X>(t: &Tables<H, X>, n: int, s: Seq<char>, sid: usize)
    requires
        t.wf(),
        t.attached(n),
    ensures
        ({
            let (id, w, m) = climb(t, n, s, sid);
            match climb_node(t, n, sid) {
                Some(q) => {
                    let ctx = t.resources@[q].session_ctxs@[sid];
                    &&& t.attached(q)
                    &&& t.resources@[q].session_ctxs@.contains_key(sid)
                    &&& t.expr_of(q) + w == t.expr_of(n) + s
                    &&& (m == Mapping::Receiver ==> ctx.remote_expr_id == Some(id))
                    &&& (m == Mapping::Sender ==> ctx.remote_expr_id is None
                        && ctx.local_expr_id == Some(id))
                },
                None => id == 0 && m == Mapping::Sender && w == t.expr_of(n) + s,
            }
        }),
    decreases n,
{
    lemma_attached_in_range(t, n);
    let ctxs = t.resources@[n].session_ctxs@;
    if ctxs.contains_key(sid) && (ctxs[sid].remote_expr_id is Some
        || ctxs[sid].local_expr_id is Some) {
    } else if n == 0 {
        assert(t.expr_of(0) + s =~= s);
    } else {
        lemma_attached_parent(t, n);
        let p = t.parent_of(n)->0 as int;
        lemma_climb(t, p, t.suffix_of(n) + s, sid);
        assert(t.expr_of(p) + (t.suffix_of(n) + s) =~= t.expr_of(p) + t.suffix_of(n) + s);
    }
}

/// What `get_best_key` gives names the key asked for: the key of the
/// resource that the session declared the id of, followed by the suffix
/// given; or, with no such resource, the whole key under scope 0.
pub proof fn law_best_key_names_key<H, X>(
    t: &Tables<H, X>,
    prefix: int,
    suffix: Seq<char>,
    sid: usize,
)
    requires
        t.wf(),
        t.attached(prefix),
    ensures
        ({
            let (id, w, m) = best_key(t, prefix, suffix, sid);
            match climb_node(t, descend(t, prefix, suffix).0, sid) {
                Some(q) => {
                    let ctx = t.resources@[q].session_ctxs@[sid];
                    &&& t.attached(q)
                    &&& t.expr_of(q) + w == t.expr_of(prefix) + suffix
                    &&& (m == Mapping::Receiver ==> ctx.remote_expr_id == Some(id))
                    &&& (m == Mapping::Sender ==> ctx.local_expr_id == Some(id))
                },
                None => id == 0 && m == Mapping::Sender && w == t.expr_of(prefix) + suffix,
            }
        }),
{
    lemma_descend(t, prefix, suffix);
    let (d, rest) = descend(t, prefix, suffix);
    lemma_climb(t, d, rest, sid);
}

/// A resource made for a key is what that key names afterwards.
pub proof fn law_get_after_make<H, X>(
    old: &Tables<H, X>,
    new: &Tables<H, X>,
    key: Seq<char>,
    hat: H,
    r: int,
)
    requires
        made(old, new, key, hat, r),
    ensures
        new.find(key) == Some(r),
        new.expr_of(r) == key,
        new.has_context(r),
{
}

/// Resource `i` of `a` is still in `b` at the same place in the tree, with
/// the same suffix and wild-suffix record; its children list only grew, by
/// resources new in `b`.
pub open spec fn tree_kept_at<H, X>(a: &Tables<H, X>, b: &Tables<H, X>, i: int) -> bool {
    &&& b.parent_of(i) == a.parent_of(i)
    &&& b.suffix_of(i) == a.suffix_of(i)
    &&& b.nonwild_of(i) == a.nonwild_of(i)
    &&& a.children_of(i).len() <= b.children_of(i).len()
    &&& forall|k: int|
        0 <= k < a.children_of(i).len() ==> #[trigger] b.children_of(i)[k] == a.children_of(i)[k]
    &&& forall|k: int|
        a.children_of(i).len() <= k < b.children_of(i).len() ==> #[trigger] b.children_of(i)[k]
            >= a.len()
}

/// `b` keeps the tree of `a`: no resource was removed or moved, only added.
pub open spec fn keeps_tree<H, X>(a: &Tables<H, X>, b: &Tables<H, X>) -> bool {
    &&& b.len() >= a.len()
    &&& b.root_res == a.root_res
    &&& forall|i: int| 0 <= i < a.len() ==> #[trigger] tree_kept_at(a, b, i)
}

proof fn lemma_keeps_refl<H, X>(a: &Tables<H, X>)
    ensures
        keeps_tree(a, a),
{
    assert forall|i: int| 0 <= i < a.len() implies #[trigger] tree_kept_at(a, a, i) by {}
}

proof fn lemma_keeps_from_grows<H, X>(a: &Tables<H, X>, b: &Tables<H, X>)
    requires
        a.grows_into(b),
    ensures
        keeps_tree(a, b),
{
    assert forall|i: int| 0 <= i < a.len() implies #[trigger] tree_kept_at(a, b, i) by {
        assert(a.kept_in(b, i));
    }
}

proof fn lemma_keeps_from_shape<H, X>(a: &Tables<H, X>, b: &Tables<H, X>)
    requires
        same_shape(a, b),
    ensures
        keeps_tree(a, b),
{
    assert forall|i: int| 0 <= i < a.len() implies #[trigger] tree_kept_at(a, b, i) by {
        assert(b.resources@[i].parent == a.resources@[i].parent);
    }
}

proof fn lemma_keeps_trans<H, X>(a: &Tables<H, X>, b: &Tables<H, X>, c: &Tables<H, X>)
    requires
        keeps_tree(a, b),
        keeps_tree(b, c),
    ensures
        keeps_tree(a, c),
{
    assert forall|i: int| 0 <= i < a.len() implies #[trigger] tree_kept_at(a, c, i) by {
        assert(tree_kept_at(a, b, i));
        assert(tree_kept_at(b, c, i));
        assert forall|k: int| a.children_of(i).len() <= k < c.children_of(i).len() implies #[trigger] c.children_of(
            i,
        )[k] >= a.len() by {
            if k < b.children_of(i).len() {
                assert(c.children_of(i)[k] == b.children_of(i)[k]);
            }
        }
    }
}

/// Keeping the tree keeps which resources are attached, and their keys.
proof fn lemma_keeps_attached<H, X>(a: &Tables<H, X>, b: &Tables<H, X>, i: int)
    requires
        keeps_tree(a, b),
        0 <= i < a.len(),
    ensures
        b.attached(i) == a.attached(i),
        b.expr_of(i) == a.expr_of(i),
    decreases i,
{
    assert(tree_kept_at(a, b, i));
    if i > 0 {
        match a.parent_of(i) {
            Some(p) => {
                if (p as int) < i {
                    lemma_keeps_attached(a, b, p as int);
                    assert(tree_kept_at(a, b, p as int));
                    if has_index(b.children_of(p as int), i) {
                        let k = choose|k: int|
                            0 <= k < b.children_of(p as int).len() && b.children_of(p as int)[k] as int
                                == i;
                        if k >= a.children_of(p as int).len() {
                            assert(b.children_of(p as int)[k] >= a.len());
                        }
                        assert(has_index(a.children_of(p as int), i));
                    }
                    if has_index(a.children_of(p as int), i) {
                        let k = choose|k: int|
                            0 <= k < a.children_of(p as int).len() && a.children_of(p as int)[k] as int
                                == i;
                        assert(b.children_of(p as int)[k] == a.children_of(p as int)[k]);
                        assert(has_index(b.children_of(p as int), i));
                    }
                }
            },
            None => {},
        }
    }
}

/// Keeping the tree keeps what each key names.
proof fn lemma_keeps_lookup<H, X>(a: &Tables<H, X>, b: &Tables<H, X>, n: int, cs: Seq<Seq<char>>)
    requires
        a.wf(),
        b.wf(),
        keeps_tree(a, b),
        0 <= n < a.len(),
        a.lookup(n, cs) is Some,
    ensures
        b.lookup(n, cs) == a.lookup(n, cs),
    decreases cs.len(),
{
    if cs.len() > 0 {
        lemma_child_with_some(a, n, cs[0]);
        let m = a.child_with(n, cs[0])->0;
        let k = choose|k: int|
            0 <= k < a.children_of(n).len() && #[trigger] a.suffix_of(a.children_of(n)[k] as int)
                == cs[0];
        assert(a.node_wf(n));
        assert(a.child_ok(n, a.children_of(n)[k] as int));
        assert(tree_kept_at(a, b, n));
        assert(b.children_of(n)[k] == a.children_of(n)[k]);
        assert(tree_kept_at(a, b, m));
        lemma_child_with_is(b, n, k);
        lemma_keeps_lookup(a, b, m, cs.drop_first());
    }
}

/// Making a resource keeps the tree.
pub proof fn law_make_keeps_tree<H, X>(
    old: &Tables<H, X>,
    new: &Tables<H, X>,
    key: Seq<char>,
    hat: H,
    r: int,
)
    requires
        made(old, new, key, hat, r),
    ensures
        keeps_tree(old, new),
{
    lemma_keeps_from_grows(old, new);
}

/// Matching a resource keeps the tree.
pub proof fn law_match_keeps_tree<H, X>(
    old: &Tables<H, X>,
    new: &Tables<H, X>,
    res: int,
    ms: Seq<usize>,
)
    requires
        matched(old, new, res, ms),
    ensures
        keeps_tree(old, new),
{
    assert forall|i: int| 0 <= i < old.len() implies #[trigger] tree_kept_at(old, new, i) by {
        assert(matched_at(old, new, res, ms, i));
    }
}

/// Declaring an id towards a face keeps the tree.
pub proof fn law_decl_key_keeps_tree<H, X>(
    old_t: &Tables<H, X>,
    new_t: &Tables<H, X>,
    old_f: &FaceState,
    new_f: &FaceState,
    res: int,
    push: bool,
    r: (WireExpr, Option<DeclareKeyExpr>),
)
    requires
        decl_key_effect(old_t, new_t, old_f, new_f, res, push, r),
    ensures
        keeps_tree(old_t, new_t),
{
    if *new_t == *old_t {
        lemma_keeps_refl(old_t);
    } else {
        assert(same_shape(old_t, new_t)) by {
            assert forall|i: int| 0 <= i < old_t.len() implies #[trigger] new_t.resources@[i].parent
                == old_t.resources@[i].parent by {}
        }
        lemma_keeps_from_shape(old_t, new_t);
    }
}

/// A face declaring an expression id keeps the tree.
pub proof fn law_register_keeps_tree<H, X>(
    old_t: &Tables<H, X>,
    new_t: &Tables<H, X>,
    old_f: &FaceState,
    new_f: &FaceState,
    expr_id: ExprId,
    expr: &WireExpr,
    hat: H,
    r: Registration,
)
    requires
        register_effect(old_t, new_t, old_f, new_f, expr_id, expr, hat, r),
    ensures
        keeps_tree(old_t, new_t),
{
    if *new_t == *old_t {
        lemma_keeps_refl(old_t);
    } else {
        let p = scope_of(old_f, expr.scope, expr.mapping)->0;
        let key = old_t.expr_of(p as int) + expr.suffix@;
        let x = r->0 as int;
        assert(registered(old_t, new_t, key, hat, x, old_f.id, expr_id));
        let mid = choose|mid: Tables<H, X>|
            #[trigger] provided(old_t, &mid, key, hat, x) && crate::declare::declared_at(
                &mid,
                new_t,
                x,
                old_f.id,
                crate::register::with_remote_id(
                    crate::declare::session_at(&mid, x, old_f.id),
                    old_f.id,
                    expr_id,
                ),
            );
        lemma_keeps_from_grows(old_t, &mid);
        assert(same_shape(&mid, new_t)) by {
            assert forall|i: int| 0 <= i < mid.len() implies #[trigger] new_t.resources@[i].parent
                == mid.resources@[i].parent by {}
        }
        lemma_keeps_from_shape(&mid, new_t);
        lemma_keeps_trans(old_t, &mid, new_t);
    }
}

/// A face expressing an interest keeps the tree.
pub proof fn law_interest_keeps_tree<H, X>(
    old_t: &Tables<H, X>,
    new_t: &Tables<H, X>,
    old_f: &FaceState,
    new_f: &FaceState,
    id: InterestId,
    expr: Option<&WireExpr>,
    hat: H,
    r: bool,
)
    requires
        interest_effect(old_t, new_t, old_f, new_f, id, expr, hat, r),
    ensures
        keeps_tree(old_t, new_t),
{
    let prev = crate::register::interest_res(old_f, id);
    match expr {
        None => {
            crate::register::lemma_moved_shape(old_t, new_t, None, prev);
            lemma_keeps_from_shape(old_t, new_t);
        },
        Some(e) => {
            match scope_of(old_f, e.scope, e.mapping) {
                None => {
                    lemma_keeps_refl(old_t);
                },
                Some(p) => {
                    let key = old_t.expr_of(p as int) + e.suffix@;
                    let x = new_f.remote_key_interests@[id]->0;
                    let mid = choose|mid: Tables<H, X>|
                        #[trigger] provided(old_t, &mid, key, hat, x as int)
                            && crate::register::holders_moved(&mid, new_t, Some(x as int), prev);
                    lemma_keeps_from_grows(old_t, &mid);
                    crate::register::lemma_moved_shape(&mid, new_t, Some(x as int), prev);
                    lemma_keeps_from_shape(&mid, new_t);
                    lemma_keeps_trans(old_t, &mid, new_t);
                },
            }
        },
    }
}

/// Once a resource is made for a key, that key names it for as long as the
/// tree is kept, whatever else is made or declared meanwhile.
pub proof fn law_make_then_get<H, X>(
    t0: &Tables<H, X>,
    t1: &Tables<H, X>,
    t2: &Tables<H, X>,
    key: Seq<char>,
    hat: H,
    r: int,
)
    requires
        made(t0, t1, key, hat, r),
        keeps_tree(t1, t2),
        t2.wf(),
    ensures
        t2.find(key) == Some(r),
        t2.expr_of(r) == key,
        t2.attached(r),
{
    lemma_attached_in_range(t1, r);
    lemma_keeps_lookup(t1, t2, 0, crate::keys::chunks(key));
    lemma_keeps_attached(t1, t2, r);
}

/// Making the same key again, while the tree was kept, gives the same
/// resource, adds no resource, and keeps its routing context.
pub proof fn law_make_again<H, X>(
    t0: &Tables<H, X>,
    t1: &Tables<H, X>,
    t2: &Tables<H, X>,
    t3: &Tables<H, X>,
    key: Seq<char>,
    hat1: H,
    hat2: H,
    r1: int,
    r2: int,
)
    requires
        made(t0, t1, key, hat1, r1),
        keeps_tree(t1, t2),
        t2.wf(),
        made(t2, t3, key, hat2, r2),
    ensures
        r2 == r1,
        t3.len() == t2.len(),
        t2.has_context(r1) ==> t3.resources@[r1].context == t2.resources@[r1].context,
{
    law_make_then_get(t0, t1, t2, key, hat1, r1);
    lemma_attached_in_range(t2, r1);
}

/// Making a resource leaves a well-formed tree in which every attached
/// resource's wild-suffix record splits its key at its nearest
/// wildcard-free ancestor.
pub proof fn law_make_keeps_shape<H, X>(
    old: &Tables<H, X>,
    new: &Tables<H, X>,
    key: Seq<char>,
    hat: H,
    r: int,
)
    requires
        made(old, new, key, hat, r),
    ensures
        new.wf(),
        forall|i: int| #[trigger] new.attached(i) ==> nonwild_shape(new, i),
{
    assert forall|i: int| #[trigger] new.attached(i) implies nonwild_shape(new, i) by {
        lemma_attached_in_range(new, i);
        lemma_nonwild_shape(new, i);
    }
}

/// Asking `decl_key` again, with nothing changed since it named a resource by
/// an id, gives the same key and declares nothing.
pub proof fn law_decl_key_again<H, X>(
    t0: &Tables<H, X>,
    t1: &Tables<H, X>,
    t2: &Tables<H, X>,
    f0: &FaceState,
    f1: &FaceState,
    f2: &FaceState,
    res: int,
    push1: bool,
    push2: bool,
    r1: (WireExpr, Option<DeclareKeyExpr>),
    r2: (WireExpr, Option<DeclareKeyExpr>),
)
    requires
        t0.wf(),
        t0.attached(res),
        decl_key_effect(t0, t1, f0, f1, res, push1, r1),
        r1.0.scope != 0,
        decl_key_effect(t1, t2, f1, f2, res, push2, r2),
    ensures
        wire_view(r2.0) == wire_view(r1.0),
        r2.1 is None,
        *t2 == *t1,
        *f2 == *f1,
{
    lemma_attached_in_range(t0, res);
    let (np, w) = nonwild_split(t0, res);
    let p = np->0;
    if *t1 != *t0 {
        assert(same_shape(t0, t1)) by {
            assert forall|i: int| 0 <= i < t0.len() implies #[trigger] t1.resources@[i].parent
                == t0.resources@[i].parent by {}
        }
        lemma_same_shape(t0, t1);
        assert(t1.nonwild_of(res) == t0.nonwild_of(res));
        lemma_nonwild_shape(t0, res);
        assert(nonwild_split(t1, res) == nonwild_split(t0, res));
        assert(t1.resources@[p].session_ctxs@.contains_key(f0.id));
    }
}

/// When a face declares an id for a key whose resource had no routing
/// context, that resource is matched with itself and with what the search
/// for the key found, and matches stay mutual.
pub proof fn law_register_matches<H, X>(
    old_t: &Tables<H, X>,
    new_t: &Tables<H, X>,
    old_f: &FaceState,
    new_f: &FaceState,
    expr_id: ExprId,
    expr: &WireExpr,
    hat: H,
    p: usize,
    x: usize,
)
    requires
        old_t.wf(),
        scope_of(old_f, expr.scope, expr.mapping) == Some(p),
        !old_f.remote_mappings@.contains_key(expr_id),
        register_effect(old_t, new_t, old_f, new_f, expr_id, expr, hat, Registration::Declared(x)),
        !(old_t.find(old_t.expr_of(p as int) + expr.suffix@) matches Some(f) && old_t.has_context(f)),
    ensures
        new_t.wf(),
        new_t.matches_of(x as int).to_set() == crate::register::found_matches(
            old_t,
            old_t.expr_of(p as int) + expr.suffix@,
        ).insert(x),
        forall|k: int|
            0 <= k < new_t.matches_of(x as int).len() ==> {
                let j = #[trigger] new_t.matches_of(x as int)[k] as int;
                &&& new_t.attached(j)
                &&& new_t.has_context(j)
                &&& has_index(new_t.matches_of(j), x as int)
            },
{
    let key = old_t.expr_of(p as int) + expr.suffix@;
    assert(registered(old_t, new_t, key, hat, x as int, old_f.id, expr_id));
    let mid = choose|mid: Tables<H, X>|
        #[trigger] provided(old_t, &mid, key, hat, x as int) && crate::declare::declared_at(
            &mid,
            new_t,
            x as int,
            old_f.id,
            crate::register::with_remote_id(
                crate::declare::session_at(&mid, x as int, old_f.id),
                old_f.id,
                expr_id,
            ),
        );
    lemma_attached_in_range(&mid, x as int);
    assert(same_shape(&mid, new_t)) by {
        assert forall|i: int| 0 <= i < mid.len() implies #[trigger] new_t.resources@[i].parent
            == mid.resources@[i].parent by {}
    }
    lemma_same_shape(&mid, new_t);
    assert forall|k: int| 0 <= k < new_t.matches_of(x as int).len() implies {
        let j = #[trigger] new_t.matches_of(x as int)[k] as int;
        &&& new_t.attached(j)
        &&& new_t.has_context(j)
        &&& has_index(new_t.matches_of(j), x as int)
    } by {
        law_matches_mutual(new_t, x as int, k);
    }
}

/// When a face declares an id for a key expression whose resource had no
/// routing context, that resource is matched with exactly itself and every
/// resource the search for its full key expression finds (what
/// `get_matches` returns for it), whatever the key holds.
pub proof fn law_register_matches_search<H, X>(
    old_t: &Tables<H, X>,
    new_t: &Tables<H, X>,
    old_f: &FaceState,
    new_f: &FaceState,
    expr_id: ExprId,
    expr: &WireExpr,
    hat: H,
    p: usize,
    x: usize,
)
    requires
        old_t.wf(),
        scope_of(old_f, expr.scope, expr.mapping) == Some(p),
        !old_f.remote_mappings@.contains_key(expr_id),
        register_effect(old_t, new_t, old_f, new_f, expr_id, expr, hat, Registration::Declared(x)),
        !(old_t.find(old_t.expr_of(p as int) + expr.suffix@) matches Some(f) && old_t.has_context(f)),
        is_keyexpr(old_t.expr_of(p as int) + expr.suffix@),
        matches_from(old_t, old_t.expr_of(p as int) + expr.suffix@, 0) is Some,
    ensures
        new_t.matches_of(x as int).to_set() == matches_from(
            old_t,
            old_t.expr_of(p as int) + expr.suffix@,
            0,
        )->0.insert(x),
{
    law_register_matches(old_t, new_t, old_f, new_f, expr_id, expr, hat, p, x);
}

/// What `decl_key` returns names the key of `res`: either the whole key
/// under scope 0, or the suffix after the key of a resource on which the
/// face's session holds the id given as scope (the face's own id when the
/// mapping is the receiver's, this side's id when it is the sender's).
pub proof fn law_decl_key_names_key<H, X>(
    old_t: &Tables<H, X>,
    new_t: &Tables<H, X>,
    old_f: &FaceState,
    new_f: &FaceState,
    res: int,
    push: bool,
    r: (WireExpr, Option<DeclareKeyExpr>),
)
    requires
        old_t.wf(),
        old_t.attached(res),
        decl_key_effect(old_t, new_t, old_f, new_f, res, push, r),
    ensures
        new_t.expr_of(res) == old_t.expr_of(res),
        ({
            let w = r.0;
            ||| (w.scope == 0 && w.mapping == Mapping::Sender && w.suffix@ == old_t.expr_of(res))
            ||| exists|q: int|
                #![trigger new_t.resources@[q]]
                0 <= q < new_t.len() && new_t.attached(q)
                    && new_t.resources@[q].session_ctxs@.contains_key(old_f.id) && (if w.mapping
                    == Mapping::Receiver {
                    new_t.resources@[q].session_ctxs@[old_f.id].remote_expr_id == Some(w.scope)
                } else {
                    new_t.resources@[q].session_ctxs@[old_f.id].local_expr_id == Some(w.scope)
                }) && new_t.expr_of(q) + w.suffix@ == old_t.expr_of(res)
        }),
{
    lemma_attached_in_range(old_t, res);
    law_nonwild_split(old_t, res);
    assert(same_shape(old_t, new_t)) by {
        assert forall|i: int| 0 <= i < old_t.len() implies #[trigger] new_t.resources@[i].parent
            == old_t.resources@[i].parent by {}
    }
    lemma_same_shape(old_t, new_t);
    let (np, w) = nonwild_split(old_t, res);
    match np {
        Some(p) => {
            lemma_attached_in_range(old_t, p);
            assert(new_t.resources@[p] == new_t.resources@[p]);
        },
        None => {},
    }
}

/// When the first piece of `suffix` (up to its first `/`, or all of it)
/// names a child of `prefix`, `get_best_key` names the suffix from that
/// child: the answer is the one for the rest of the suffix below the child.
pub proof fn law_best_key_follows_child<H, X>(
    t: &Tables<H, X>,
    prefix: int,
    piece: Seq<char>,
    rest: Seq<char>,
    sid: usize,
)
    requires
        t.wf(),
        0 <= prefix < t.len(),
        piece.len() > 0,
        !piece.contains('/'),
        rest.len() == 0 || rest[0] == '/',
        t.child_with(prefix, piece) is Some,
    ensures
        best_key(t, prefix, piece + rest, sid) == best_key(
            t,
            t.child_with(prefix, piece)->0,
            rest,
            sid,
        ),
{
    let s = piece + rest;
    crate::keys::lemma_first_from(s, '/', 0);
    assert(head_len(s) == piece.len()) by {
        crate::keys::lemma_first_from(s, '/', 0);
        if rest.len() > 0 {
            assert(s[piece.len() as int] == '/');
            assert forall|j: int| 0 <= j < piece.len() implies s[j] != '/' by {
                assert(s[j] == piece[j]);
            }
            crate::keys::lemma_first_from_is(s, '/', 0, Some(piece.len() as int));
        } else {
            assert forall|j: int| 0 <= j < s.len() implies s[j] != '/' by {
                assert(s[j] == piece[j]);
            }
            crate::keys::lemma_first_from_is(s, '/', 0, None);
        }
    }
    assert(s.take(piece.len() as int) =~= piece);
    assert(s.skip(piece.len() as int) =~= rest);
}

/// In particular, when the whole suffix is one piece naming a child on which
/// the session holds an id, `get_best_key` gives that id with nothing after it.
pub proof fn law_best_key_uses_child_id<H, X>(
    t: &Tables<H, X>,
    prefix: int,
    piece: Seq<char>,
    sid: usize,
)
    requires
        t.wf(),
        0 <= prefix < t.len(),
        piece.len() > 0,
        !piece.contains('/'),
        t.child_with(prefix, piece) matches Some(c) && t.resources@[c].session_ctxs@.contains_key(
            sid,
        ) && t.resources@[c].session_ctxs@[sid].local_expr_id is Some
            && t.resources@[c].session_ctxs@[sid].remote_expr_id is None,
    ensures
        best_key(t, prefix, piece, sid) == (
            t.resources@[t.child_with(prefix, piece)->0].session_ctxs@[sid].local_expr_id->0,
            Seq::<char>::empty(),
            Mapping::Sender,
        ),
{
    law_best_key_follows_child(t, prefix, piece, Seq::<char>::empty(), sid);
    assert(piece + Seq::<char>::empty() =~= piece);
    let c = t.child_with(prefix, piece)->0;
    assert(descend(t, c, Seq::<char>::empty()) == (c, Seq::<char>::empty()));
}

/// `decl_key` declares a new id only when asked to push or when the face
/// is interested in the resource the id is declared for, and the id was
/// free on the face; the face then maps it to that resource, whose key is
/// what the declaration carries.
pub proof fn law_decl_key_declares_when<H, X>(
    old_t: &Tables<H, X>,
    new_t: &Tables<H, X>,
    old_f: &FaceState,
    new_f: &FaceState,
    res: int,
    push: bool,
    r: (WireExpr, Option<DeclareKeyExpr>),
)
    requires
        old_t.wf(),
        old_t.attached(res),
        decl_key_effect(old_t, new_t, old_f, new_f, res, push, r),
        r.1 is Some,
    ensures
        ({
            let id = r.1->0.id;
            let p = new_f.local_mappings@[id] as int;
            &&& crate::face::id_free(old_f, id)
            &&& new_f.local_mappings@.contains_key(id)
            &&& (push || crate::face::interested_in(old_t, old_f, p))
            &&& r.1->0.wire_expr.suffix@ == old_t.expr_of(p)
        }),
{
}

} // verus!
