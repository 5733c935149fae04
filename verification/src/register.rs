//! What the routing tables do when a face declares an expression id or a key
//! expression interest, and when it takes one back.

use vstd::prelude::*;
use crate::cleanup::{chain_matches, clean_at, clean_chain, cleaned};
use crate::context::{ExprId, InterestId, Mapping, ResourceContext, SessionContext, WireExpr};
use crate::declare::{declared_at, session_at};
use crate::face::{face_ok, mapped, FaceState};
use crate::keyexpr::{check_keyexpr, is_keyexpr};
use crate::matching::{
    lemma_matched_wf, lemma_occurrences, matched, matched_at, matches_from, occurrences,
    same_but_matches,
};
use crate::resource::made;
use crate::tree::{
    has_index, lemma_attached_in_range, lemma_find_sound, lemma_grows_attached,
    lemma_grows_refl, lemma_grows_trans, lemma_same_shape, same_shape, starts_ascii, Resource,
    Tables,
};

verus! {

/// The resource that `scope` names for `face`: the root for scope 0.
pub open spec fn scope_of(face: &FaceState, scope: ExprId, mapping: Mapping) -> Option<usize> {
    if scope == 0 {
        Some(0usize)
    } else {
        mapped(face, scope, mapping)
    }
}

/// The resources a new resource for `key` is matched with: those the search
/// finds, or none when `key` is not a key expression or the search fails.
pub open spec fn found_matches<H, X>(t: &Tables<H, X>, key: Seq<char>) -> Set<usize> {
    if is_keyexpr(key) && matches_from(t, key, 0) is Some {
        matches_from(t, key, 0)->0
    } else {
        Set::empty()
    }
}

/// A resource can be provided for `key`: it starts with a one-byte
/// character, as taking its first chunk apart requires, and when it is a key
/// expression the search for it meets only suffixes and chunks that are key
/// expressions.
pub open spec fn searchable<H, X>(t: &Tables<H, X>, key: Seq<char>) -> bool {
    &&& starts_ascii(key)
    &&& (is_keyexpr(key) ==> matches_from(t, key, 0) is Some)
}

/// A routing context created with `hat`, whatever its matches.
pub open spec fn fresh_but_matches<H>(c: ResourceContext<H>, hat: H) -> bool {
    &&& c.hat == hat
    &&& !c.valid_data_routes
    &&& c.data_routes.is_empty()
    &&& !c.valid_query_routes
    &&& c.query_routes.is_empty()
}

/// Node `i` of `old` in `new` once `r` was matched with `ms`: its context,
/// if any, gained `r` in its matches when `ms` holds it.
pub open spec fn gains<H, X>(
    old: &Tables<H, X>,
    new: &Tables<H, X>,
    ms: Set<usize>,
    r: int,
    i: int,
) -> bool {
    &&& new.has_context(i) == old.has_context(i)
    &&& (old.has_context(i) ==> same_but_matches(
        new.resources@[i].context->0,
        old.resources@[i].context->0,
    ) && new.matches_of(i) == old.matches_of(i) + if ms.contains(i as usize) {
        seq![r as usize]
    } else {
        Seq::<usize>::empty()
    })
}

/// `new` is `old` once the resource `r` for `key` was provided: found with a
/// routing context, or else made, given a context with `hat` and matched.
pub open spec fn provided<H, X>(
    old: &Tables<H, X>,
    new: &Tables<H, X>,
    key: Seq<char>,
    hat: H,
    r: int,
) -> bool {
    &&& new.wf()
    &&& old.grows_into(new)
    &&& new.attached(r)
    &&& new.find(key) == Some(r)
    &&& new.expr_of(r) == key
    &&& new.has_context(r)
    &&& if old.find(key) is Some && old.has_context(old.find(key)->0) {
        r == old.find(key)->0 && *new == *old
    } else {
        let ms = found_matches(old, key);
        &&& (old.find(key) is Some ==> r == old.find(key)->0 && new.len() == old.len())
        &&& (old.find(key) is None ==> r >= old.len())
        &&& fresh_but_matches(new.resources@[r].context->0, hat)
        &&& new.matches_of(r).to_set() == ms.insert(r as usize)
        &&& new.matches_of(r).no_duplicates()
        &&& forall|i: int| 0 <= i < old.len() && i != r ==> #[trigger] gains(old, new, ms, r, i)
        &&& forall|i: int|
            old.len() <= i < new.len() && i != r ==> !#[trigger] new.has_context(i)
                && new.resources@[i].session_ctxs@ == Map::<usize, SessionContext<X>>::empty()
                && new.resources@[i].holders == 0
        &&& (r >= old.len() ==> new.resources@[r].session_ctxs@ == Map::<
            usize,
            SessionContext<X>,
        >::empty() && new.resources@[r].holders == 0)
    }
}

/// The outcome of a face declaring an expression id.
#[derive(Clone, Copy, Debug, PartialEq, Eq, Structural)]
pub enum Registration {
    /// The id now names this resource.
    Declared(usize),
    /// The id already named the same key expression: nothing changed.
    Unchanged,
    /// The id already named another key expression: remapping is refused and
    /// nothing changed.
    RemapRefused,
    /// The scope names nothing the face declared: nothing changed.
    UnknownScope,
}

/// The session context of face `fid` once the face declared `id` for it.
pub open spec fn with_remote_id<X>(old: Option<SessionContext<X>>, fid: usize, id: ExprId) -> SessionContext<X> {
    match old {
        Some(c) => SessionContext {
            face: c.face,
            local_expr_id: c.local_expr_id,
            remote_expr_id: Some(id),
            subs: c.subs,
            qabl: c.qabl,
            token: c.token,
            in_interceptor_cache: c.in_interceptor_cache,
            e_interceptor_cache: c.e_interceptor_cache,
        },
        None => SessionContext {
            face: fid,
            local_expr_id: None,
            remote_expr_id: Some(id),
            subs: None,
            qabl: None,
            token: false,
            in_interceptor_cache: None,
            e_interceptor_cache: None,
        },
    }
}

/// `new` is `old` once the resource `x` for `key` was provided and face
/// `fid` declared `id` for it: `x` keeps a session context for the face that
/// records `id`, and has one more holder.
pub open spec fn registered<H, X>(
    old: &Tables<H, X>,
    new: &Tables<H, X>,
    key: Seq<char>,
    hat: H,
    x: int,
    fid: usize,
    id: ExprId,
) -> bool {
    exists|mid: Tables<H, X>|
        #[trigger] provided(old, &mid, key, hat, x) && declared_at(
            &mid,
            new,
            x,
            fid,
            with_remote_id(session_at(&mid, x, fid), fid, id),
        )
}

/// No resource has as many holders as a `usize` counts.
pub open spec fn holders_below_max<H, X>(t: &Tables<H, X>) -> bool {
    forall|i: int| 0 <= i < t.len() ==> #[trigger] t.resources@[i].holders < usize::MAX
}

/// A resource can be provided for the key expression that declaring
/// `expr_id` for `expr` would make (see `searchable`).
pub open spec fn declarable<H, X>(
    t: &Tables<H, X>,
    face: &FaceState,
    expr_id: ExprId,
    expr: &WireExpr,
) -> bool {
    match scope_of(face, expr.scope, expr.mapping) {
        Some(p) => face.remote_mappings@.contains_key(expr_id) || searchable(
            t,
            t.expr_of(p as int) + expr.suffix@,
        ),
        None => true,
    }
}

/// What `register_expr` does, for the tables and face before and after.
pub open spec fn register_effect<H, X>(
    old_t: &Tables<H, X>,
    new_t: &Tables<H, X>,
    old_f: &FaceState,
    new_f: &FaceState,
    expr_id: ExprId,
    expr: &WireExpr,
    hat: H,
    r: Registration,
) -> bool {
    let unchanged = *new_t == *old_t && *new_f == *old_f;
    match scope_of(old_f, expr.scope, expr.mapping) {
        None => r == Registration::UnknownScope && unchanged,
        Some(p) => {
            let key = old_t.expr_of(p as int) + expr.suffix@;
            if old_f.remote_mappings@.contains_key(expr_id) {
                &&& r == if old_t.expr_of(old_f.remote_mappings@[expr_id] as int) == key {
                    Registration::Unchanged
                } else {
                    Registration::RemapRefused
                }
                &&& unchanged
            } else {
                &&& r is Declared
                &&& registered(old_t, new_t, key, hat, r->0 as int, old_f.id, expr_id)
                &&& new_f.id == old_f.id
                &&& new_f.local_mappings@ == old_f.local_mappings@
                &&& new_f.remote_mappings@ == old_f.remote_mappings@.insert(expr_id, r->0)
                &&& new_f.remote_key_interests@ == old_f.remote_key_interests@
            }
        },
    }
}

/// `1` where `o` names `i`, else `0`.
pub open spec fn shift(o: Option<int>, i: int) -> int {
    if o == Some(i) {
        1
    } else {
        0
    }
}

/// Node `i` of `b` is node `i` of `a` with a holder more if `plus` names it
/// and a holder less if `minus` names it.
pub open spec fn moved_at<H, X>(
    a: &Tables<H, X>,
    b: &Tables<H, X>,
    plus: Option<int>,
    minus: Option<int>,
    i: int,
) -> bool {
    &&& b.resources@[i].parent == a.resources@[i].parent
    &&& b.resources@[i].suffix == a.resources@[i].suffix
    &&& b.resources@[i].nonwild_prefix == a.resources@[i].nonwild_prefix
    &&& b.resources@[i].children == a.resources@[i].children
    &&& b.resources@[i].context == a.resources@[i].context
    &&& b.resources@[i].session_ctxs == a.resources@[i].session_ctxs
    &&& b.resources@[i].holders == a.resources@[i].holders + shift(plus, i) - shift(minus, i)
}

/// `b` is `a` where only the holders moved: one more for `plus`, one less
/// for `minus`.
pub open spec fn holders_moved<H, X>(
    a: &Tables<H, X>,
    b: &Tables<H, X>,
    plus: Option<int>,
    minus: Option<int>,
) -> bool {
    &&& b.root_res == a.root_res
    &&& b.len() == a.len()
    &&& forall|i: int| 0 <= i < a.len() ==> #[trigger] moved_at(a, b, plus, minus, i)
}

/// `face` refers to resource `x`, through a mapping or an interest.
pub open spec fn refers_to(face: &FaceState, x: usize) -> bool {
    ||| face.local_mappings@.values().contains(x)
    ||| face.remote_mappings@.values().contains(x)
    ||| face.remote_key_interests@.values().contains(Some(x))
}

/// `new` is `old` once resource `x` lost the holder that a mapping was, and
/// the resources of `clean_chain` from `x` were unlinked; the face is in
/// order unless it still refers to one of them.
pub open spec fn released<H, X>(
    old_t: &Tables<H, X>,
    new_t: &Tables<H, X>,
    new_f: &FaceState,
    x: int,
) -> bool {
    exists|mid: Tables<H, X>|
        #[trigger] holders_moved(old_t, &mid, None, Some(x)) && {
            let gone = clean_chain(&mid, x, None).to_set();
            &&& cleaned(&mid, new_t, gone)
            &&& chain_matches(&mid, new_t, clean_chain(&mid, x, None))
            &&& (forall|y: usize| #[trigger] refers_to(new_f, y) ==> !gone.contains(y as int))
                ==> face_ok(new_t, new_f)
        }
}

/// The resource the interest `id` of `face` holds, if any.
pub open spec fn interest_res(face: &FaceState, id: InterestId) -> Option<int> {
    if face.remote_key_interests@.contains_key(id) && face.remote_key_interests@[id] is Some {
        Some(face.remote_key_interests@[id]->0 as int)
    } else {
        None
    }
}

/// The resource the mapping `id` of `face` holds has its holder counted.
pub open spec fn mapping_held<H, X>(t: &Tables<H, X>, face: &FaceState, id: ExprId) -> bool {
    face.remote_mappings@.contains_key(id) ==> t.resources@[face.remote_mappings@[id] as int].holders
        >= 1
}

/// The resource the interest `id` of `face` holds has its holder counted.
pub open spec fn interest_held<H, X>(t: &Tables<H, X>, face: &FaceState, id: InterestId) -> bool {
    interest_res(face, id) matches Some(q) ==> t.resources@[q].holders >= 1
}

/// Moving holders keeps the shape of the tables.
pub proof fn lemma_moved_shape<H, X>(
    a: &Tables<H, X>,
    b: &Tables<H, X>,
    plus: Option<int>,
    minus: Option<int>,
)
    requires
        holders_moved(a, b, plus, minus),
    ensures
        same_shape(a, b),
        a.wf() ==> b.wf(),
        forall|i: int| 0 <= i < a.len() ==> b.attached(i) == a.attached(i),
        forall|i: int| 0 <= i < a.len() ==> b.has_context(i) == a.has_context(i),
        forall|i: int| 0 <= i < a.len() ==> b.expr_of(i) == a.expr_of(i),
{
    assert forall|i: int| 0 <= i < a.len() implies {
        &&& #[trigger] b.resources@[i].parent == a.resources@[i].parent
        &&& b.resources@[i].suffix == a.resources@[i].suffix
        &&& b.resources@[i].nonwild_prefix == a.resources@[i].nonwild_prefix
        &&& b.resources@[i].children == a.resources@[i].children
        &&& b.resources@[i].context == a.resources@[i].context
    } by {
        assert(moved_at(a, b, plus, minus, i));
    }
    assert forall|i: int| 0 <= i < a.len() implies b.has_context(i) == a.has_context(i) by {
        assert(moved_at(a, b, plus, minus, i));
    }
    lemma_same_shape(a, b);
}

/// A resource can be provided for the key expression of an interest (see
/// `searchable`).
pub open spec fn interest_declarable<H, X>(
    t: &Tables<H, X>,
    face: &FaceState,
    expr: Option<&WireExpr>,
) -> bool {
    match expr {
        Some(e) => match scope_of(face, e.scope, e.mapping) {
            Some(p) => searchable(t, t.expr_of(p as int) + e.suffix@),
            None => true,
        },
        None => true,
    }
}

/// What `register_expr_interest` does, for the tables and face before and
/// after.
pub open spec fn interest_effect<H, X>(
    old_t: &Tables<H, X>,
    new_t: &Tables<H, X>,
    old_f: &FaceState,
    new_f: &FaceState,
    id: InterestId,
    expr: Option<&WireExpr>,
    hat: H,
    r: bool,
) -> bool {
    let prev = interest_res(old_f, id);
    let face_rest = new_f.id == old_f.id && new_f.local_mappings@ == old_f.local_mappings@
        && new_f.remote_mappings@ == old_f.remote_mappings@;
    match expr {
        None => {
            &&& r
            &&& face_rest
            &&& new_f.remote_key_interests@ == old_f.remote_key_interests@.insert(id, None)
            &&& holders_moved(old_t, new_t, None, prev)
        },
        Some(e) => match scope_of(old_f, e.scope, e.mapping) {
            None => !r && *new_t == *old_t && *new_f == *old_f,
            Some(p) => {
                let key = old_t.expr_of(p as int) + e.suffix@;
                let x = new_f.remote_key_interests@[id]->0;
                &&& r
                &&& face_rest
                &&& new_f.remote_key_interests@.contains_key(id)
                &&& new_f.remote_key_interests@[id] is Some
                &&& new_f.remote_key_interests@ == old_f.remote_key_interests@.insert(id, Some(x))
                &&& exists|mid: Tables<H, X>|
                    #[trigger] provided(old_t, &mid, key, hat, x as int) && holders_moved(
                        &mid,
                        new_t,
                        Some(x as int),
                        prev,
                    )
            },
        },
    }
}

/// A face stays in order in tables where what was attached stays attached
/// and what had a routing context keeps one.
proof fn lemma_face_ok_transfer<H, X>(a: &Tables<H, X>, b: &Tables<H, X>, face: &FaceState)
    requires
        a.wf(),
        face_ok(a, face),
        forall|i: int|
            0 <= i < a.len() && #[trigger] a.attached(i) ==> b.attached(i) && (a.has_context(i)
                ==> b.has_context(i)),
    ensures
        face_ok(b, face),
{
    assert forall|id: ExprId| #[trigger] face.local_mappings@.contains_key(id) implies b.attached(
        face.local_mappings@[id] as int,
    ) by {
        lemma_attached_in_range(a, face.local_mappings@[id] as int);
    }
    assert forall|id: ExprId| #[trigger] face.remote_mappings@.contains_key(id) implies b.attached(
        face.remote_mappings@[id] as int,
    ) by {
        lemma_attached_in_range(a, face.remote_mappings@[id] as int);
    }
    assert forall|i: InterestId| #[trigger] face.remote_key_interests@.contains_key(i) implies match face.remote_key_interests@[i] {
        Some(q) => b.attached(q as int) && b.has_context(q as int),
        None => true,
    } by {
        match face.remote_key_interests@[i] {
            Some(q) => {
                lemma_attached_in_range(a, q as int);
            },
            None => {},
        }
    }
}

/// Providing a resource keeps what was attached and the routing contexts.
proof fn lemma_provided_keeps<H, X>(
    old: &Tables<H, X>,
    new: &Tables<H, X>,
    key: Seq<char>,
    hat: H,
    x: int,
)
    requires
        old.wf(),
        provided(old, new, key, hat, x),
    ensures
        forall|i: int|
            0 <= i < old.len() && #[trigger] old.attached(i) ==> new.attached(i) && (
            old.has_context(i) ==> new.has_context(i)),
{
    assert forall|i: int| 0 <= i < old.len() && #[trigger] old.attached(i) implies new.attached(i) && (
    old.has_context(i) ==> new.has_context(i)) by {
        lemma_grows_attached(old, new, i);
        if i != x && !(old.find(key) is Some && old.has_context(old.find(key)->0)) {
            assert(gains(old, new, found_matches(old, key), x, i));
        }
    }
}

/// In a list without repeats an entry occurs once or not at all.
proof fn lemma_occurrences_once(s: Seq<usize>, x: int)
    requires
        s.no_duplicates(),
    ensures
        occurrences(s, x) == if has_index(s, x) {
            1nat
        } else {
            0nat
        },
    decreases s.len(),
{
    lemma_occurrences(s, x);
    if s.len() > 0 {
        let d = s.drop_last();
        assert(d.no_duplicates());
        lemma_occurrences_once(d, x);
        lemma_occurrences(d, x);
        if s.last() as int == x && has_index(d, x) {
            let k = choose|k: int| 0 <= k < d.len() && d[k] as int == x;
            assert(s[k] == s[s.len() - 1]);
        }
    }
}

impl<H, X> Tables<H, X> {
    /// The resource that `scope` names for `face`: the root for scope 0.
    pub fn get_mapping(&self, face: &FaceState, scope: ExprId, mapping: Mapping) -> (r: Option<
        usize,
    >)
        ensures
            r == if scope == 0 {
                Some(self.root_res)
            } else {
                mapped(face, scope, mapping)
            },
    {
        if scope == 0 {
            Some(self.root_res)
        } else {
            face.get_mapping(scope, mapping)
        }
    }
}

impl<H, X> Resource<H, X> {
    /// The resource for `suffix` relative to `prefix`, with a routing
    /// context: the one found if it has a context, else one made (or given a
    /// context holding `hat`) and matched with the resources the search for
    /// its key expression finds.
    #[verifier::spinoff_prover]
    #[verifier::rlimit(30)]
    fn resource_for(tables: &mut Tables<H, X>, prefix: usize, suffix: &str, hat: H) -> (r: usize)
        requires
            old(tables).wf(),
            old(tables).attached(prefix as int),
            searchable(old(tables), old(tables).expr_of(prefix as int) + suffix@),
        ensures
            provided(
                old(tables),
                final(tables),
                old(tables).expr_of(prefix as int) + suffix@,
                hat,
                r as int,
            ),
    {
        let ghost old_t = *tables;
        let ghost key = old_t.expr_of(prefix as int) + suffix@;
        let size = tables.resources.len();
        proof {
            lemma_attached_in_range(tables, prefix as int);
            lemma_grows_refl(tables);
        }
        let found = Self::get_resource(tables, prefix, suffix);
        match found {
            Some(f) => {
                proof {
                    lemma_find_sound(tables, key);
                }
                if tables.resources[f].context.is_some() {
                    return f;
                }
            },
            None => {},
        }
        let fullexpr = Self::expr(tables, prefix).concat(suffix);
        let mut matches = if check_keyexpr(fullexpr.as_str()) {
            Self::get_matches(tables, fullexpr.as_str())
        } else {
            Vec::new()
        };
        let ghost ms = matches@;
        proof {
            assert(ms.to_set() =~= found_matches(&old_t, key));
            assert(ms.no_duplicates());
            assert(forall|k: int| 0 <= k < ms.len() ==> (#[trigger] ms[k] as int) < old_t.len()
                && old_t.attached(ms[k] as int) && old_t.has_context(ms[k] as int));
            assert(!(old_t.find(key) is Some && old_t.has_context(old_t.find(key)->0)));
        }
        let r = Self::make_resource(tables, prefix, suffix, hat);
        let ghost mid = *tables;
        proof {
            assert(made(&old_t, &mid, key, hat, r as int));
            lemma_attached_in_range(&mid, r as int);
            if (r as int) < old_t.len() {
                lemma_grows_attached(&old_t, &mid, r as int);
                crate::tree::lemma_find_expr(&old_t, r as int);
                assert(old_t.find(key) == Some(r as int));
            }
            assert(!((r as int) < old_t.len() && old_t.has_context(r as int)));
            assert forall|k: int| 0 <= k < ms.len() implies (#[trigger] ms[k] as int) < mid.len()
                && mid.has_context(ms[k] as int) && mid.attached(ms[k] as int) && ms[k] as int
                != r as int by {
                lemma_grows_attached(&old_t, &mid, ms[k] as int);
                if ms[k] as int == r as int {
                    assert(old_t.has_context(r as int));
                }
            }
            assert(!has_index(ms, r as int));
        }
        matches.push(r);
        proof {
            assert(matches@ == ms.push(r));
            assert forall|k: int| 0 <= k < matches@.len() implies (#[trigger] matches@[k] as int)
                < mid.len() && mid.has_context(matches@[k] as int) && mid.attached(
                matches@[k] as int,
            ) by {
                if k < ms.len() {
                    assert(matches@[k] == ms[k]);
                }
            }
            assert(mid.matches_of(r as int).len() == 0);
        }
        Self::match_resource(tables, r, matches);
        proof {
            let ms2 = ms.push(r);
            lemma_matched_wf(&mid, tables, r as int, ms2);
            assert(matched(&mid, tables, r as int, ms2));
            assert forall|i: int| 0 <= i < mid.len() implies #[trigger] mid.kept_in(tables, i) by {
                assert(matched_at(&mid, tables, r as int, ms2, i));
            }
            lemma_grows_trans(&old_t, &mid, tables);
            lemma_grows_attached(&mid, tables, r as int);
            crate::tree::lemma_find_expr(tables, r as int);
            assert(matched_at(&mid, tables, r as int, ms2, r as int));
            assert(ms2.no_duplicates()) by {
                assert forall|a: int, b: int| 0 <= a < b < ms2.len() implies ms2[a] != ms2[b] by {
                    assert(ms2[a] == ms[a]);
                    if b == ms.len() {
                        assert(ms2[b] == r);
                        if ms[a] == r {
                            assert(has_index(ms, r as int));
                        }
                    } else {
                        assert(ms2[b] == ms[b]);
                    }
                }
            }
            assert(ms2.to_set() =~= ms.to_set().insert(r)) by {
                assert forall|y: usize| ms2.to_set().contains(y) <==> ms.to_set().insert(r).contains(y) by {
                    if ms2.to_set().contains(y) {
                        let k = choose|k: int| 0 <= k < ms2.len() && ms2[k] == y;
                        if k < ms.len() {
                            assert(ms[k] == y);
                        }
                    }
                    if ms.to_set().contains(y) {
                        let k = choose|k: int| 0 <= k < ms.len() && ms[k] == y;
                        assert(ms2[k] == y);
                    }
                    if y == r {
                        assert(ms2[ms.len() as int] == y);
                    }
                }
            }
            assert forall|i: int| 0 <= i < old_t.len() && i != r implies #[trigger] gains(
                &old_t,
                tables,
                found_matches(&old_t, key),
                r as int,
                i,
            ) by {
                assert(matched_at(&mid, tables, r as int, ms2, i));
                assert(mid.resources@[i].context == old_t.resources@[i].context);
                assert(i < size);
                lemma_occurrences_once(ms2, i);
                assert(has_index(ms2, i) == ms.to_set().contains(i as usize)) by {
                    if has_index(ms2, i) {
                        let k = choose|k: int| 0 <= k < ms2.len() && ms2[k] as int == i;
                        assert(k < ms.len());
                        assert(ms[k] == ms2[k]);
                    }
                    if ms.to_set().contains(i as usize) {
                        let k = choose|k: int| 0 <= k < ms.len() && ms[k] == i as usize;
                        assert(ms2[k] == ms[k]);
                    }
                }
                if old_t.has_context(i) {
                    if has_index(ms2, i) {
                        assert(Seq::new(1, |_j: int| r) =~= seq![r]);
                    } else {
                        assert(Seq::new(0, |_j: int| r) =~= Seq::<usize>::empty());
                    }
                }
            }
            assert forall|i: int| old_t.len() <= i < tables.len() && i != r implies !#[trigger] tables.has_context(i)
                && tables.resources@[i].session_ctxs@ == Map::<usize, SessionContext<X>>::empty()
                && tables.resources@[i].holders == 0 by {
                assert(matched_at(&mid, tables, r as int, ms2, i));
                assert(mid.attached(i));
            }
            if (r as int) >= old_t.len() {
                assert(matched_at(&mid, tables, r as int, ms2, r as int));
            }
            if old_t.find(key) is Some {
                lemma_find_sound(&old_t, key);
            }
            assert(tables.wf());
            assert(old_t.grows_into(tables));
            assert(tables.attached(r as int));
            assert(tables.find(key) == Some(r as int));
            assert(tables.expr_of(r as int) == key);
            assert(tables.has_context(r as int));
            assert(fresh_but_matches(tables.resources@[r as int].context->0, hat));
            assert(tables.matches_of(r as int).to_set() == found_matches(&old_t, key).insert(r));
        }
        r
    }
}

/// A face declares `expr_id` for the key expression `expr`. The scope of
/// `expr` is looked up first (the root for scope 0). An id the face already
/// declared is left as it is: the outcome tells whether it named the same key
/// expression. Otherwise the resource for the key expression is provided (see
/// `provided`; `hat` goes into a new routing context), it records `expr_id`
/// in its session context for the face and gains a holder, and the face maps
/// `expr_id` to it.
pub fn register_expr<H, X>(
    tables: &mut Tables<H, X>,
    face: &mut FaceState,
    expr_id: ExprId,
    expr: &WireExpr,
    hat: H,
) -> (r: Registration)
    requires
        old(tables).wf(),
        face_ok(old(tables), old(face)),
        holders_below_max(old(tables)),
        declarable(old(tables), old(face), expr_id, expr),
    ensures
        final(tables).wf(),
        face_ok(final(tables), final(face)),
        register_effect(old(tables), final(tables), old(face), final(face), expr_id, expr, hat, r),
{
    broadcast use vstd::std_specs::hash::group_hash_axioms;

    let ghost old_t = *tables;
    let ghost old_f = *face;
    match tables.get_mapping(face, expr.scope, expr.mapping) {
        None => Registration::UnknownScope,
        Some(prefix) => {
            proof {
                if expr.scope != 0 {
                    assert(old_f.remote_mappings@.contains_key(expr.scope)
                        || old_f.local_mappings@.contains_key(expr.scope));
                }
                lemma_attached_in_range(tables, prefix as int);
            }
            match face.remote_mappings.get(&expr_id) {
                Some(res) => {
                    let res = *res;
                    proof {
                        assert(old_f.remote_mappings@.contains_key(expr_id));
                        lemma_attached_in_range(tables, res as int);
                    }
                    let fullexpr = Resource::<H, X>::expr(tables, prefix).concat(expr.suffix.as_str());
                    if Resource::<H, X>::expr(tables, res) == fullexpr {
                        Registration::Unchanged
                    } else {
                        Registration::RemapRefused
                    }
                },
                None => {
                    let ghost key = old_t.expr_of(prefix as int) + expr.suffix@;
                    let res = Resource::<H, X>::resource_for(tables, prefix, expr.suffix.as_str(), hat);
                    let ghost mid = *tables;
                    proof {
                        lemma_attached_in_range(&mid, res as int);
                        assert(mid.resources@[res as int].holders < usize::MAX) by {
                            if (res as int) < old_t.len() {
                                assert(old_t.kept_in(&mid, res as int));
                            }
                        }
                    }
                    let fid = face.id;
                    let ghost sess = session_at(&mid, res as int, fid);
                    let mut ctx = match tables.resources[res].session_ctxs.remove(&fid) {
                        Some(c) => c,
                        None => SessionContext::new(fid),
                    };
                    ctx.remote_expr_id = Some(expr_id);
                    tables.resources[res].session_ctxs.insert(fid, ctx);
                    tables.resources[res].holders = tables.resources[res].holders + 1;
                    face.remote_mappings.insert(expr_id, res);
                    proof {
                        assert(same_shape(&mid, tables)) by {
                            assert forall|i: int| 0 <= i < mid.len() implies #[trigger] tables.resources@[i].parent
                                == mid.resources@[i].parent by {}
                        }
                        lemma_same_shape(&mid, tables);
                        assert(tables.resources@[res as int].session_ctxs@ =~= mid.resources@[res as int].session_ctxs@.insert(
                            fid,
                            with_remote_id(sess, fid, expr_id),
                        ));
                        assert(declared_at(&mid, tables, res as int, fid, with_remote_id(sess, fid, expr_id)));
                        assert(provided(&old_t, &mid, key, hat, res as int));
                        assert(registered(&old_t, tables, key, hat, res as int, fid, expr_id));
                        // every resource the face refers to stays attached, those of its
                        // interests keep a routing context
                        assert forall|i: int| 0 <= i < old_t.len() && old_t.attached(i) implies tables.attached(i) by {
                            lemma_grows_attached(&old_t, &mid, i);
                        }
                        assert forall|i: int| 0 <= i < old_t.len() && old_t.has_context(i) implies tables.has_context(i) by {
                            if i != res as int && !(old_t.find(key) is Some && old_t.has_context(old_t.find(key)->0)) {
                                assert(gains(&old_t, &mid, found_matches(&old_t, key), res as int, i));
                            }
                        }
                        assert forall|id: ExprId| #[trigger] face.local_mappings@.contains_key(id) implies tables.attached(face.local_mappings@[id] as int) by {
                            lemma_attached_in_range(&old_t, old_f.local_mappings@[id] as int);
                        }
                        assert forall|id: ExprId| #[trigger] face.remote_mappings@.contains_key(id) implies tables.attached(face.remote_mappings@[id] as int) by {
                            if id != expr_id {
                                lemma_attached_in_range(&old_t, old_f.remote_mappings@[id] as int);
                            }
                        }
                        assert forall|i: crate::context::InterestId| #[trigger] face.remote_key_interests@.contains_key(i)
                            implies match face.remote_key_interests@[i] {
                                Some(q) => tables.attached(q as int) && tables.has_context(q as int),
                                None => true,
                            } by {
                            match face.remote_key_interests@[i] {
                                Some(q) => {
                                    lemma_attached_in_range(&old_t, q as int);
                                },
                                None => {},
                            }
                        }
                    }
                    Registration::Declared(res)
                },
            }
        },
    }
}

/// A face takes back `expr_id`. When the face had declared it, the mapping
/// goes, its resource loses a holder and is cleaned (see `Resource::clean`);
/// `false` tells that the id was unknown, and then nothing changed.
pub fn unregister_expr<H, X>(tables: &mut Tables<H, X>, face: &mut FaceState, expr_id: ExprId) -> (r: bool)
    requires
        old(tables).wf(),
        face_ok(old(tables), old(face)),
        mapping_held(old(tables), old(face), expr_id),
    ensures
        r == old(face).remote_mappings@.contains_key(expr_id),
        final(face).id == old(face).id,
        final(face).local_mappings@ == old(face).local_mappings@,
        final(face).remote_mappings@ == old(face).remote_mappings@.remove(expr_id),
        final(face).remote_key_interests@ == old(face).remote_key_interests@,
        !r ==> *final(tables) == *old(tables),
        r ==> final(tables).wf() && released(
            old(tables),
            final(tables),
            final(face),
            old(face).remote_mappings@[expr_id] as int,
        ),
{
    broadcast use vstd::std_specs::hash::group_hash_axioms;

    let ghost old_t = *tables;
    let ghost old_f = *face;
    match face.remote_mappings.remove(&expr_id) {
        Some(res) => {
            proof {
                lemma_attached_in_range(tables, res as int);
            }
            tables.resources[res].holders = tables.resources[res].holders - 1;
            let ghost mid = *tables;
            proof {
                assert forall|i: int| 0 <= i < old_t.len() implies #[trigger] moved_at(
                    &old_t,
                    &mid,
                    None,
                    Some(res as int),
                    i,
                ) by {}
                lemma_moved_shape(&old_t, &mid, None, Some(res as int));
            }
            Resource::<H, X>::clean(tables, res);
            proof {
                let gone = clean_chain(&mid, res as int, None).to_set();
                if forall|y: usize| #[trigger] refers_to(face, y) ==> !gone.contains(y as int) {
                    assert forall|id: ExprId| #[trigger] face.local_mappings@.contains_key(id) implies tables.attached(face.local_mappings@[id] as int) by {
                        let y = face.local_mappings@[id];
                        assert(face.local_mappings@.values().contains(y));
                        assert(refers_to(face, y));
                        lemma_attached_in_range(&old_t, y as int);
                        assert(clean_at(&mid, tables, gone, y as int));
                    }
                    assert forall|id: ExprId| #[trigger] face.remote_mappings@.contains_key(id) implies tables.attached(face.remote_mappings@[id] as int) by {
                        let y = face.remote_mappings@[id];
                        assert(face.remote_mappings@.values().contains(y));
                        assert(refers_to(face, y));
                        assert(old_f.remote_mappings@.contains_key(id));
                        lemma_attached_in_range(&old_t, y as int);
                        assert(clean_at(&mid, tables, gone, y as int));
                    }
                    assert forall|i: InterestId| #[trigger] face.remote_key_interests@.contains_key(i)
                        implies match face.remote_key_interests@[i] {
                            Some(q) => tables.attached(q as int) && tables.has_context(q as int),
                            None => true,
                        } by {
                        match face.remote_key_interests@[i] {
                            Some(q) => {
                                assert(face.remote_key_interests@.values().contains(Some(q)));
                                assert(refers_to(face, q));
                                lemma_attached_in_range(&old_t, q as int);
                                assert(clean_at(&mid, tables, gone, q as int));
                            },
                            None => {},
                        }
                    }
                }
                assert(holders_moved(&old_t, &mid, None, Some(res as int)));
            }
            true
        },
        None => false,
    }
}

/// The resource a replaced or removed interest entry held, if any.
pub open spec fn held_res(prev: Option<Option<usize>>) -> Option<int> {
    match prev {
        Some(Some(q)) => Some(q as int),
        _ => None,
    }
}

/// The holder an interest was goes away with it.
fn release_interest<H, X>(tables: &mut Tables<H, X>, prev: Option<Option<usize>>)
    requires
        prev matches Some(Some(q)) ==> (q as int) < old(tables).len() && old(tables).resources@[q as int].holders >= 1,
    ensures
        holders_moved(old(tables), final(tables), None, held_res(prev)),
{
    let ghost old_t = *tables;
    match prev {
        Some(Some(q)) => {
            tables.resources[q].holders = tables.resources[q].holders - 1;
        },
        _ => {},
    }
    assert forall|i: int| 0 <= i < old_t.len() implies #[trigger] moved_at(
        &old_t,
        tables,
        None,
        held_res(prev),
        i,
    ) by {}
}

/// A face expresses the interest `id`: in the resource for `expr` (provided
/// as `register_expr` does, see `provided`), or in every resource when
/// `expr` is `None`. An interest the face had under `id` is replaced, and the
/// resource it held loses that holder; the resource of the new interest
/// gains one. `false` tells that the scope of `expr` names nothing the face
/// declared, and then nothing changed.
pub fn register_expr_interest<H, X>(
    tables: &mut Tables<H, X>,
    face: &mut FaceState,
    id: InterestId,
    expr: Option<&WireExpr>,
    hat: H,
) -> (r: bool)
    requires
        old(tables).wf(),
        face_ok(old(tables), old(face)),
        holders_below_max(old(tables)),
        interest_held(old(tables), old(face), id),
        interest_declarable(old(tables), old(face), expr),
    ensures
        final(tables).wf(),
        face_ok(final(tables), final(face)),
        interest_effect(old(tables), final(tables), old(face), final(face), id, expr, hat, r),
{
    broadcast use vstd::std_specs::hash::group_hash_axioms;

    let ghost old_t = *tables;
    let ghost old_f = *face;
    let ghost prev_res = interest_res(&old_f, id);
    proof {
        if prev_res is Some {
            lemma_attached_in_range(tables, prev_res->0);
        }
    }
    match expr {
        Some(expr) => match tables.get_mapping(face, expr.scope, expr.mapping) {
            Some(prefix) => {
                proof {
                    if expr.scope != 0 {
                        assert(old_f.remote_mappings@.contains_key(expr.scope)
                            || old_f.local_mappings@.contains_key(expr.scope));
                    }
                    lemma_attached_in_range(tables, prefix as int);
                }
                let ghost key = old_t.expr_of(prefix as int) + expr.suffix@;
                let res = Resource::<H, X>::resource_for(tables, prefix, expr.suffix.as_str(), hat);
                let ghost mid = *tables;
                proof {
                    lemma_attached_in_range(&mid, res as int);
                    assert(mid.resources@[res as int].holders < usize::MAX) by {
                        if (res as int) < old_t.len() {
                            assert(old_t.kept_in(&mid, res as int));
                        }
                    }
                    if prev_res is Some {
                        assert(old_t.kept_in(&mid, prev_res->0));
                    }
                }
                tables.resources[res].holders = tables.resources[res].holders + 1;
                let ghost plus = *tables;
                let prev = face.remote_key_interests.insert(id, Some(res));
                release_interest(tables, prev);
                proof {
                    assert(prev_res == held_res(prev));
                    assert forall|i: int| 0 <= i < mid.len() implies #[trigger] moved_at(
                        &mid,
                        tables,
                        Some(res as int),
                        prev_res,
                        i,
                    ) by {
                        assert(moved_at(&plus, tables, None, prev_res, i));
                    }
                    assert(holders_moved(&mid, tables, Some(res as int), prev_res));
                    assert(provided(&old_t, &mid, key, hat, res as int));
                    lemma_moved_shape(&mid, tables, Some(res as int), prev_res);
                    lemma_provided_keeps(&old_t, &mid, key, hat, res as int);
                    assert forall|i: int|
                        0 <= i < old_t.len() && #[trigger] old_t.attached(i) implies tables.attached(i) && (
                        old_t.has_context(i) ==> tables.has_context(i)) by {}
                    lemma_face_ok_transfer(&old_t, tables, &old_f);
                    assert forall|i: InterestId| #[trigger] face.remote_key_interests@.contains_key(i)
                        implies match face.remote_key_interests@[i] {
                            Some(q) => tables.attached(q as int) && tables.has_context(q as int),
                            None => true,
                        } by {
                        if i != id {
                            assert(old_f.remote_key_interests@.contains_key(i));
                        }
                    }
                    assert(face.remote_key_interests@[id] == Some(res));
                    assert(face.remote_key_interests@ == old_f.remote_key_interests@.insert(id, Some(res)));
                    // the resource held, as the effect names it
                    let x = face.remote_key_interests@[id]->0;
                    assert(exists|m: Tables<H, X>|
                        #[trigger] provided(&old_t, &m, key, hat, x as int) && holders_moved(
                            &m,
                            tables,
                            Some(x as int),
                            prev_res,
                        ));
                }
                true
            },
            None => false,
        },
        None => {
            let prev = face.remote_key_interests.insert(id, None);
            release_interest(tables, prev);
            proof {
                assert(prev_res == held_res(prev));
                lemma_moved_shape(&old_t, tables, None, prev_res);
                assert forall|i: int|
                    0 <= i < old_t.len() && #[trigger] old_t.attached(i) implies tables.attached(i) && (
                    old_t.has_context(i) ==> tables.has_context(i)) by {}
                lemma_face_ok_transfer(&old_t, tables, &old_f);
                assert forall|i: InterestId| #[trigger] face.remote_key_interests@.contains_key(i)
                    implies match face.remote_key_interests@[i] {
                        Some(q) => tables.attached(q as int) && tables.has_context(q as int),
                        None => true,
                    } by {
                    if i != id {
                        assert(old_f.remote_key_interests@.contains_key(i));
                    }
                }
                assert(face.remote_key_interests@ == old_f.remote_key_interests@.insert(id, None));
                assert(holders_moved(&old_t, tables, None, prev_res));
            }
            true
        },
    }
}

/// A face takes back the interest `id`; the resource it held, if any, loses
/// that holder.
pub fn unregister_expr_interest<H, X>(tables: &mut Tables<H, X>, face: &mut FaceState, id: InterestId)
    requires
        old(tables).wf(),
        face_ok(old(tables), old(face)),
        interest_held(old(tables), old(face), id),
    ensures
        final(tables).wf(),
        face_ok(final(tables), final(face)),
        final(face).id == old(face).id,
        final(face).local_mappings@ == old(face).local_mappings@,
        final(face).remote_mappings@ == old(face).remote_mappings@,
        final(face).remote_key_interests@ == old(face).remote_key_interests@.remove(id),
        holders_moved(old(tables), final(tables), None, interest_res(old(face), id)),
{
    broadcast use vstd::std_specs::hash::group_hash_axioms;

    let ghost old_t = *tables;
    let ghost old_f = *face;
    let ghost prev_res = interest_res(&old_f, id);
    proof {
        if prev_res is Some {
            lemma_attached_in_range(tables, prev_res->0);
        }
    }
    let prev = face.remote_key_interests.remove(&id);
    release_interest(tables, prev);
    proof {
        assert(prev_res == held_res(prev));
        lemma_moved_shape(&old_t, tables, None, prev_res);
        assert forall|i: int|
            0 <= i < old_t.len() && #[trigger] old_t.attached(i) implies tables.attached(i) && (
            old_t.has_context(i) ==> tables.has_context(i)) by {}
        lemma_face_ok_transfer(&old_t, tables, &old_f);
        assert forall|i: InterestId| #[trigger] face.remote_key_interests@.contains_key(i)
            implies match face.remote_key_interests@[i] {
                Some(q) => tables.attached(q as int) && tables.has_context(q as int),
                None => true,
            } by {
            assert(old_f.remote_key_interests@.contains_key(i));
        }
    }
}

} // verus!
