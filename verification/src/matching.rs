//! Searching the tree, chunk by chunk, for the resources a key expression
//! meets (the spec `matches_from`), and recording matches between resources.

use vstd::prelude::*;
use crate::keyexpr::{check_keyexpr, intersects, is_keyexpr, keyexprs_intersect};
use crate::keys::{find_char_from, first_from, lemma_first_from};
use crate::context::ResourceContext;
use crate::tree::{has_index, lemma_attached_in_range, Resource, Tables};

verus! {

pub open spec fn double_star() -> Seq<char> {
    seq!['*', '*']
}

/// A key split at its first `/`: the first chunk, and the rest if any.
pub open spec fn fst_split(k: Seq<char>) -> (Seq<char>, Option<Seq<char>>) {
    match first_from(k, '/', 0) {
        Some(p) => (k.take(p), Some(k.skip(p + 1))),
        None => (k, None),
    }
}

/// The suffix of node `n` without its leading `/`.
pub open spec fn node_key<H, X>(t: &Tables<H, X>, n: int) -> Seq<char> {
    let s = t.suffix_of(n);
    if s.len() > 0 && s[0] == '/' {
        s.skip(1)
    } else {
        s
    }
}

/// `{n}` if `n` has a routing context, else nothing.
pub open spec fn own<H, X>(t: &Tables<H, X>, n: int) -> Set<usize> {
    if t.has_context(n) {
        set![n as usize]
    } else {
        Set::empty()
    }
}

pub open spec fn opt_union(a: Option<Set<usize>>, b: Option<Set<usize>>) -> Option<Set<usize>> {
    match (a, b) {
        (Some(x), Some(y)) => Some(x + y),
        _ => None,
    }
}

/// The resources with a routing context in the subtree of `n`.
pub open spec fn subtree_ctx<H, X>(t: &Tables<H, X>, n: int) -> Set<usize>
    decreases t.len() - n, t.children_of(n).len() + 1,
{
    if 0 <= n < t.len() {
        own(t, n) + subtree_ctx_kids(t, n, t.children_of(n).len() as int)
    } else {
        Set::empty()
    }
}

/// The resources with a routing context below the first `k` children of `n`.
pub open spec fn subtree_ctx_kids<H, X>(t: &Tables<H, X>, n: int, k: int) -> Set<usize>
    decreases t.len() - n, k,
{
    if 0 <= n < t.len() && 0 < k <= t.children_of(n).len() {
        let c = t.children_of(n)[k - 1] as int;
        subtree_ctx_kids(t, n, k - 1) + if n < c < t.len() {
            subtree_ctx(t, c)
        } else {
            Set::empty()
        }
    } else {
        Set::empty()
    }
}

/// The context of the child `/**` (or else `**`) of `n`, if any.
pub open spec fn star_child<H, X>(t: &Tables<H, X>, n: int) -> Set<usize> {
    match t.child_with(n, seq!['/', '*', '*']) {
        Some(m) => own(t, m),
        None => match t.child_with(n, double_star()) {
            Some(m) => own(t, m),
            None => Set::empty(),
        },
    }
}

/// The resources found matching `key` from node `n`: `None` when the search
/// meets a suffix or a chunk that is not a key expression.
pub open spec fn matches_from<H, X>(t: &Tables<H, X>, key: Seq<char>, n: int) -> Option<Set<usize>>
    decreases key.len(), t.len() - n, t.children_of(n).len() + 1,
{
    if !(0 <= n < t.len()) {
        Some(Set::empty())
    } else if t.parent_of(n) is None || t.suffix_of(n) == seq!['/'] {
        matches_kids(t, key, n, t.children_of(n).len() as int)
    } else {
        let s = node_key(t, n);
        let (chunk, rest) = fst_split(key);
        if !is_keyexpr(s) || !is_keyexpr(chunk) {
            None
        } else if !keyexprs_intersect(chunk, s) {
            Some(Set::empty())
        } else {
            match rest {
                None => if chunk == double_star() {
                    Some(subtree_ctx(t, n))
                } else {
                    let below = if s == double_star() {
                        matches_kids(t, key, n, t.children_of(n).len() as int)
                    } else {
                        Some(Set::empty())
                    };
                    opt_union(Some(own(t, n) + star_child(t, n)), below)
                },
                Some(r) => if r == double_star() {
                    Some(subtree_ctx(t, n))
                } else {
                    let recheck = chunk == double_star() || s == double_star();
                    opt_union(
                        matches_kids2(t, key, r, recheck, n, t.children_of(n).len() as int),
                        if recheck && r.len() < key.len() {
                            matches_from(t, r, n)
                        } else {
                            Some(Set::empty())
                        },
                    )
                },
            }
        }
    }
}

/// What the first `k` children of `n` find for `key`.
pub open spec fn matches_kids<H, X>(t: &Tables<H, X>, key: Seq<char>, n: int, k: int) -> Option<
    Set<usize>,
>
    decreases key.len(), t.len() - n, k,
{
    if 0 <= n < t.len() && 0 < k <= t.children_of(n).len() {
        let c = t.children_of(n)[k - 1] as int;
        opt_union(
            matches_kids(t, key, n, k - 1),
            if n < c < t.len() {
                matches_from(t, key, c)
            } else {
                Some(Set::empty())
            },
        )
    } else {
        Some(Set::empty())
    }
}

/// What the first `k` children of `n` find for the rest `r` of `key`, and
/// for `key` itself when `recheck`.
pub open spec fn matches_kids2<H, X>(
    t: &Tables<H, X>,
    key: Seq<char>,
    r: Seq<char>,
    recheck: bool,
    n: int,
    k: int,
) -> Option<Set<usize>>
    decreases key.len(), t.len() - n, k,
{
    if 0 <= n < t.len() && 0 < k <= t.children_of(n).len() && r.len() < key.len() {
        let c = t.children_of(n)[k - 1] as int;
        opt_union(
            matches_kids2(t, key, r, recheck, n, k - 1),
            if n < c < t.len() {
                opt_union(
                    matches_from(t, r, c),
                    if recheck {
                        matches_from(t, key, c)
                    } else {
                        Some(Set::empty())
                    },
                )
            } else {
                Some(Set::empty())
            },
        )
    } else {
        Some(Set::empty())
    }
}

/// How many times `x` occurs in `s`.
pub open spec fn occurrences(s: Seq<usize>, x: int) -> nat
    decreases s.len(),
{
    if s.len() == 0 {
        0
    } else {
        occurrences(s.drop_last(), x) + if s.last() as int == x {
            1nat
        } else {
            0nat
        }
    }
}

/// `a` and `b` agree on all but the matches.
pub open spec fn same_but_matches<H>(a: ResourceContext<H>, b: ResourceContext<H>) -> bool {
    &&& a.hat == b.hat
    &&& a.valid_data_routes == b.valid_data_routes
    &&& a.data_routes == b.data_routes
    &&& a.valid_query_routes == b.valid_query_routes
    &&& a.query_routes == b.query_routes
}

/// Node `i` of `new` is node `i` of `old` with `res` added to its matches
/// once for each occurrence of `i` in `ms`.
pub open spec fn matches_step<H, X>(
    old: &Tables<H, X>,
    new: &Tables<H, X>,
    res: int,
    ms: Seq<usize>,
    i: int,
) -> bool {
    &&& new.resources@[i].parent == old.resources@[i].parent
    &&& new.resources@[i].suffix == old.resources@[i].suffix
    &&& new.resources@[i].nonwild_prefix == old.resources@[i].nonwild_prefix
    &&& new.resources@[i].children == old.resources@[i].children
    &&& new.resources@[i].session_ctxs == old.resources@[i].session_ctxs
    &&& new.resources@[i].holders == old.resources@[i].holders
    &&& new.has_context(i) == old.has_context(i)
    &&& (old.has_context(i) ==> same_but_matches(
        new.resources@[i].context->0,
        old.resources@[i].context->0,
    ) && new.matches_of(i) == old.matches_of(i) + Seq::new(
        occurrences(ms, i),
        |_j: int| res as usize,
    ))
}

pub open spec fn matched_upto<H, X>(
    old: &Tables<H, X>,
    new: &Tables<H, X>,
    res: int,
    ms: Seq<usize>,
) -> bool {
    &&& new.root_res == old.root_res
    &&& new.len() == old.len()
    &&& forall|i: int| 0 <= i < old.len() ==> #[trigger] matches_step(old, new, res, ms, i)
}

/// Node `i` after `match_resource(res, ms)`.
pub open spec fn matched_at<H, X>(
    old: &Tables<H, X>,
    new: &Tables<H, X>,
    res: int,
    ms: Seq<usize>,
    i: int,
) -> bool {
    &&& new.resources@[i].parent == old.resources@[i].parent
    &&& new.resources@[i].suffix == old.resources@[i].suffix
    &&& new.resources@[i].nonwild_prefix == old.resources@[i].nonwild_prefix
    &&& new.resources@[i].children == old.resources@[i].children
    &&& new.resources@[i].session_ctxs == old.resources@[i].session_ctxs
    &&& new.resources@[i].holders == old.resources@[i].holders
    &&& new.has_context(i) == old.has_context(i)
    &&& (old.has_context(i) ==> same_but_matches(
        new.resources@[i].context->0,
        old.resources@[i].context->0,
    ))
    &&& (i == res ==> new.matches_of(i) == ms)
    &&& (i != res && old.has_context(i) ==> new.matches_of(i) == old.matches_of(i) + Seq::new(
        occurrences(ms, i),
        |_j: int| res as usize,
    ))
}

/// What `match_resource(res, ms)` leaves behind.
pub open spec fn matched<H, X>(old: &Tables<H, X>, new: &Tables<H, X>, res: int, ms: Seq<usize>) -> bool {
    &&& new.root_res == old.root_res
    &&& new.len() == old.len()
    &&& forall|i: int| 0 <= i < old.len() ==> #[trigger] matched_at(old, new, res, ms, i)
}

/// Every resource of `s` is an attached resource of `t` with a routing context.
pub open spec fn good_set<H, X>(t: &Tables<H, X>, s: Set<usize>) -> bool {
    forall|x: usize|
        #[trigger] s.contains(x) ==> (x as int) < t.len() && t.attached(x as int) && t.has_context(
            x as int,
        )
}

pub open spec fn opt_good<H, X>(t: &Tables<H, X>, o: Option<Set<usize>>) -> bool {
    o matches Some(s) ==> good_set(t, s)
}

proof fn lemma_union_good<H, X>(t: &Tables<H, X>, a: Option<Set<usize>>, b: Option<Set<usize>>)
    requires
        opt_good(t, a),
        opt_good(t, b),
    ensures
        opt_good(t, opt_union(a, b)),
{
}

proof fn lemma_own_good<H, X>(t: &Tables<H, X>, n: int)
    requires
        t.wf(),
        t.attached(n),
    ensures
        good_set(t, own(t, n)),
{
    lemma_attached_in_range(t, n);
}

proof fn lemma_subtree_good<H, X>(t: &Tables<H, X>, n: int)
    requires
        t.wf(),
        t.attached(n),
    ensures
        good_set(t, subtree_ctx(t, n)),
    decreases t.len() - n, t.children_of(n).len() + 1,
{
    lemma_attached_in_range(t, n);
    lemma_own_good(t, n);
    lemma_subtree_kids_good(t, n, t.children_of(n).len() as int);
}

proof fn lemma_subtree_kids_good<H, X>(t: &Tables<H, X>, n: int, k: int)
    requires
        t.wf(),
        t.attached(n),
    ensures
        good_set(t, subtree_ctx_kids(t, n, k)),
    decreases t.len() - n, k,
{
    lemma_attached_in_range(t, n);
    if 0 < k <= t.children_of(n).len() {
        lemma_subtree_kids_good(t, n, k - 1);
        let c = t.children_of(n)[k - 1] as int;
        if n < c < t.len() {
            lemma_child_attached(t, n, k - 1);
            lemma_subtree_good(t, c);
        }
    }
}

/// The children of an attached resource are attached.
proof fn lemma_child_attached<H, X>(t: &Tables<H, X>, n: int, k: int)
    requires
        t.wf(),
        t.attached(n),
        0 <= k < t.children_of(n).len(),
    ensures
        t.attached(t.children_of(n)[k] as int),
        n < t.children_of(n)[k] as int,
{
    lemma_attached_in_range(t, n);
    assert(t.node_wf(n));
    let c = t.children_of(n)[k] as int;
    assert(t.child_ok(n, c));
    assert(has_index(t.children_of(n), c));
}

proof fn lemma_star_good<H, X>(t: &Tables<H, X>, n: int)
    requires
        t.wf(),
        t.attached(n),
    ensures
        good_set(t, star_child(t, n)),
{
    lemma_attached_in_range(t, n);
    match t.child_with(n, seq!['/', '*', '*']) {
        Some(m) => {
            crate::tree::lemma_child_with_some(t, n, seq!['/', '*', '*']);
            lemma_own_good(t, m);
        },
        None => match t.child_with(n, double_star()) {
            Some(m) => {
                crate::tree::lemma_child_with_some(t, n, double_star());
                lemma_own_good(t, m);
            },
            None => {},
        },
    }
}

/// What the search finds from an attached resource is made of attached
/// resources with a routing context.
pub proof fn lemma_from_good<H, X>(t: &Tables<H, X>, key: Seq<char>, n: int)
    requires
        t.wf(),
        t.attached(n),
    ensures
        opt_good(t, matches_from(t, key, n)),
    decreases key.len(), t.len() - n, t.children_of(n).len() + 1,
{
    lemma_attached_in_range(t, n);
    if t.parent_of(n) is None || t.suffix_of(n) == seq!['/'] {
        lemma_kids_good(t, key, n, t.children_of(n).len() as int);
    } else {
        let s = node_key(t, n);
        let (chunk, rest) = fst_split(key);
        if is_keyexpr(s) && is_keyexpr(chunk) && keyexprs_intersect(chunk, s) {
            match rest {
                None => {
                    if chunk == double_star() {
                        lemma_subtree_good(t, n);
                    } else {
                        lemma_own_good(t, n);
                        lemma_star_good(t, n);
                        if s == double_star() {
                            lemma_kids_good(t, key, n, t.children_of(n).len() as int);
                        }
                        let below = if s == double_star() {
                            matches_kids(t, key, n, t.children_of(n).len() as int)
                        } else {
                            Some(Set::empty())
                        };
                        lemma_union_good(t, Some(own(t, n) + star_child(t, n)), below);
                    }
                },
                Some(r) => {
                    if r == double_star() {
                        lemma_subtree_good(t, n);
                    } else {
                        let recheck = chunk == double_star() || s == double_star();
                        lemma_first_from(key, '/', 0);
                        lemma_kids2_good(t, key, r, recheck, n, t.children_of(n).len() as int);
                        if recheck && r.len() < key.len() {
                            lemma_from_good(t, r, n);
                        }
                        lemma_union_good(
                            t,
                            matches_kids2(t, key, r, recheck, n, t.children_of(n).len() as int),
                            if recheck && r.len() < key.len() {
                                matches_from(t, r, n)
                            } else {
                                Some(Set::empty())
                            },
                        );
                    }
                },
            }
        }
    }
}

proof fn lemma_kids_good<H, X>(t: &Tables<H, X>, key: Seq<char>, n: int, k: int)
    requires
        t.wf(),
        t.attached(n),
    ensures
        opt_good(t, matches_kids(t, key, n, k)),
    decreases key.len(), t.len() - n, k,
{
    lemma_attached_in_range(t, n);
    if 0 < k <= t.children_of(n).len() {
        lemma_kids_good(t, key, n, k - 1);
        let c = t.children_of(n)[k - 1] as int;
        if n < c < t.len() {
            lemma_child_attached(t, n, k - 1);
            lemma_from_good(t, key, c);
        }
        lemma_union_good(
            t,
            matches_kids(t, key, n, k - 1),
            if n < c < t.len() {
                matches_from(t, key, c)
            } else {
                Some(Set::empty())
            },
        );
    }
}

proof fn lemma_kids2_good<H, X>(
    t: &Tables<H, X>,
    key: Seq<char>,
    r: Seq<char>,
    recheck: bool,
    n: int,
    k: int,
)
    requires
        t.wf(),
        t.attached(n),
    ensures
        opt_good(t, matches_kids2(t, key, r, recheck, n, k)),
    decreases key.len(), t.len() - n, k,
{
    lemma_attached_in_range(t, n);
    if 0 < k <= t.children_of(n).len() && r.len() < key.len() {
        lemma_kids2_good(t, key, r, recheck, n, k - 1);
        let c = t.children_of(n)[k - 1] as int;
        if n < c < t.len() {
            lemma_child_attached(t, n, k - 1);
            lemma_from_good(t, r, c);
            if recheck {
                lemma_from_good(t, key, c);
            }
            lemma_union_good(
                t,
                matches_from(t, r, c),
                if recheck {
                    matches_from(t, key, c)
                } else {
                    Some(Set::empty())
                },
            );
        }
        lemma_union_good(
            t,
            matches_kids2(t, key, r, recheck, n, k - 1),
            if n < c < t.len() {
                opt_union(
                    matches_from(t, r, c),
                    if recheck {
                        matches_from(t, key, c)
                    } else {
                        Some(Set::empty())
                    },
                )
            } else {
                Some(Set::empty())
            },
        );
    }
}

pub proof fn lemma_occurrences(s: Seq<usize>, x: int)
    ensures
        occurrences(s, x) > 0 <==> has_index(s, x),
    decreases s.len(),
{
    if s.len() > 0 {
        lemma_occurrences(s.drop_last(), x);
        if has_index(s.drop_last(), x) {
            let k = choose|k: int| 0 <= k < s.drop_last().len() && s.drop_last()[k] as int == x;
            assert(s[k] as int == x);
        }
        if has_index(s, x) && s.last() as int != x {
            let k = choose|k: int| 0 <= k < s.len() && s[k] as int == x;
            assert(s.drop_last()[k] as int == x);
        }
    }
}

/// Matching a resource with resources that include all it matched before
/// keeps the tables well-formed.
pub proof fn lemma_matched_wf<H, X>(old: &Tables<H, X>, new: &Tables<H, X>, res: int, ms: Seq<usize>)
    requires
        old.wf(),
        old.attached(res),
        old.has_context(res),
        matched(old, new, res, ms),
        forall|k: int|
            0 <= k < ms.len() ==> (#[trigger] ms[k] as int) < old.len() && old.has_context(
                ms[k] as int,
            ) && old.attached(ms[k] as int),
        forall|k: int|
            0 <= k < old.matches_of(res).len() ==> has_index(
                ms,
                #[trigger] old.matches_of(res)[k] as int,
            ),
    ensures
        new.wf(),
{
    lemma_attached_in_range(old, res);
    assert forall|i: int| 0 <= i < old.len() implies #[trigger] old.kept_in(new, i) by {
        assert(matched_at(old, new, res, ms, i));
    }
    assert forall|i: int| 0 <= i < old.len() implies new.attached(i) == old.attached(i) by {
        crate::tree::lemma_grows_attached(old, new, i);
    }
    assert(matched_at(old, new, res, ms, 0));
    assert forall|i: int| 0 <= i < new.len() implies #[trigger] new.node_wf(i) by {
        assert(old.node_wf(i));
        assert(matched_at(old, new, res, ms, i));
        assert forall|k: int|
            0 <= k < new.children_of(i).len() implies new.child_ok(
            i,
            #[trigger] new.children_of(i)[k] as int,
        ) by {
            let c = old.children_of(i)[k] as int;
            assert(old.child_ok(i, c));
            assert(matched_at(old, new, res, ms, c));
        }
        assert forall|k1: int, k2: int|
            0 <= k1 < new.children_of(i).len() && 0 <= k2 < new.children_of(i).len() && k1
                != k2 implies new.suffix_of(#[trigger] new.children_of(i)[k1] as int)
            != new.suffix_of(#[trigger] new.children_of(i)[k2] as int) by {
            assert(old.children_distinct(i));
            assert(old.child_ok(i, old.children_of(i)[k1] as int));
            assert(old.child_ok(i, old.children_of(i)[k2] as int));
            assert(matched_at(old, new, res, ms, old.children_of(i)[k1] as int));
            assert(matched_at(old, new, res, ms, old.children_of(i)[k2] as int));
        }
        if new.has_context(i) && new.attached(i) {
            assert forall|k: int|
                0 <= k < new.matches_of(i).len() implies new.match_ok(
                i,
                #[trigger] new.matches_of(i)[k] as int,
            ) by {
                let j = new.matches_of(i)[k] as int;
                if i == res {
                    assert(ms[k] as int == j);
                    assert(matched_at(old, new, res, ms, j));
                    if j != res {
                        lemma_occurrences(ms, j);
                        assert(has_index(ms, j));
                        let extra = Seq::new(occurrences(ms, j), |_x: int| res as usize);
                        assert(new.matches_of(j) == old.matches_of(j) + extra);
                        assert(new.matches_of(j)[old.matches_of(j).len() as int] == res as usize);
                    } else {
                        assert(new.matches_of(res)[k] as int == i);
                    }
                } else if k < old.matches_of(i).len() {
                    assert(old.matches_of(i)[k] as int == j);
                    assert(old.match_ok(i, j));
                    assert(matched_at(old, new, res, ms, j));
                    if j == res {
                        let kk = choose|kk: int| 0 <= kk < old.matches_of(res).len() && old.matches_of(res)[kk] as int == i;
                        assert(has_index(ms, old.matches_of(res)[kk] as int));
                    } else {
                        let kk = choose|kk: int| 0 <= kk < old.matches_of(j).len() && old.matches_of(j)[kk] as int == i;
                        assert(new.matches_of(j)[kk] == old.matches_of(j)[kk]);
                    }
                } else {
                    assert(j == res);
                    lemma_occurrences(ms, i);
                    assert(matched_at(old, new, res, ms, res));
                }
            }
        }
    }
}

/// Whether `s` is `**`.
fn is_double_star(s: &str) -> (r: bool)
    ensures
        r == (s@ == double_star()),
{
    let n = s.unicode_len();
    if n == 2 && s.get_char(0) == '*' && s.get_char(1) == '*' {
        assert(s@ =~= double_star());
        true
    } else {
        false
    }
}

/// Splits a key at its first `/`.
fn fst_chunk(key: &str) -> (r: (&str, Option<&str>))
    ensures
        r.0@ == fst_split(key@).0,
        match fst_split(key@).1 {
            Some(rest) => r.1 is Some && r.1->0@ == rest,
            None => r.1 is None,
        },
{
    let n = key.unicode_len();
    proof {
        lemma_first_from(key@, '/', 0);
    }
    match find_char_from(key, '/', 0) {
        Some(pos) => (key.substring_char(0, pos), Some(key.substring_char(pos + 1, n))),
        None => {
            assert(key@.take(key@.len() as int) =~= key@);
            (key, None)
        },
    }
}

/// Pushing onto a sequence adds to its set of elements.
proof fn lemma_push_to_set(s: Seq<usize>, x: usize)
    ensures
        s.push(x).to_set() == s.to_set().insert(x),
{
    assert forall|y: usize| #[trigger] s.push(x).to_set().contains(y) == s.to_set().insert(x).contains(y) by {
        if s.to_set().contains(y) {
            let k = choose|k: int| 0 <= k < s.len() && s[k] == y;
            assert(s.push(x)[k] == y);
        }
        if y == x {
            assert(s.push(x)[s.len() as int] == x);
        }
        if s.push(x).to_set().contains(y) {
            let k = choose|k: int| 0 <= k < s.push(x).len() && s.push(x)[k] == y;
            if k < s.len() {
                assert(s[k] == y);
            }
        }
    }
    assert(s.push(x).to_set() =~= s.to_set().insert(x));
}

/// Once a search below some children fails, the search below more fails too.
proof fn lemma_kids_fail<H, X>(t: &Tables<H, X>, key: Seq<char>, n: int, k: int, kk: int)
    requires
        0 <= n < t.len(),
        0 <= k <= kk <= t.children_of(n).len(),
        matches_kids(t, key, n, k) is None,
    ensures
        matches_kids(t, key, n, kk) is None,
    decreases kk - k,
{
    if k < kk {
        lemma_kids_fail(t, key, n, k, kk - 1);
    }
}

proof fn lemma_kids2_fail<H, X>(
    t: &Tables<H, X>,
    key: Seq<char>,
    r: Seq<char>,
    recheck: bool,
    n: int,
    k: int,
    kk: int,
)
    requires
        0 <= n < t.len(),
        0 <= k <= kk <= t.children_of(n).len(),
        matches_kids2(t, key, r, recheck, n, k) is None,
    ensures
        matches_kids2(t, key, r, recheck, n, kk) is None,
    decreases kk - k,
{
    if k < kk {
        lemma_kids2_fail(t, key, r, recheck, n, k, kk - 1);
    }
}

/// Removes repeated entries, keeping the set of entries.
fn dedup(matches: &mut Vec<usize>)
    ensures
        final(matches)@.to_set() == old(matches)@.to_set(),
        final(matches)@.no_duplicates(),
{
    let ghost all = matches@.to_set();
    let mut i: usize = 0;
    while i < matches.len()
        invariant
            matches@.to_set() == all,
            0 <= i <= matches@.len(),
            forall|a: int, b: int| 0 <= a < b < i ==> matches@[a] != matches@[b],
            forall|a: int, b: int| 0 <= a < i <= b < matches@.len() ==> matches@[a] != matches@[b],
        decreases matches@.len() - i,
    {
        let current = matches[i];
        let ghost outer_len = matches@.len();
        let mut j: usize = i + 1;
        while j < matches.len()
            invariant
                matches@.len() <= outer_len,
                matches@.to_set() == all,
                0 <= i < j <= matches@.len(),
                matches@[i as int] == current,
                forall|a: int, b: int| 0 <= a < b < i ==> matches@[a] != matches@[b],
                forall|a: int, b: int| 0 <= a < i <= b < matches@.len() ==> matches@[a] != matches@[b],
                forall|b: int| i < b < j ==> matches@[b] != current,
            decreases matches@.len() - j,
        {
            if current == matches[j] {
                let ghost before = matches@;
                matches.swap_remove(j);
                proof {
                    assert forall|x: usize| #[trigger] matches@.to_set().contains(x) == before.to_set().contains(x) by {
                        if before.to_set().contains(x) {
                            let b = choose|b: int| 0 <= b < before.len() && before[b] == x;
                            if b == j as int {
                                assert(matches@[i as int] == x);
                            } else if b == before.len() - 1 {
                                assert(matches@[j as int] == x);
                            } else {
                                assert(matches@[b] == x);
                            }
                        }
                        if matches@.to_set().contains(x) {
                            let b = choose|b: int| 0 <= b < matches@.len() && matches@[b] == x;
                            if b == j as int {
                                assert(before[before.len() - 1] == x);
                            } else {
                                assert(before[b] == x);
                            }
                        }
                    }
                    assert(matches@.to_set() =~= before.to_set());
                    assert forall|a: int, b: int| 0 <= a < i <= b < matches@.len() implies matches@[a] != matches@[b] by {
                        if b == j as int {
                            assert(matches@[b] == before[before.len() - 1]);
                        } else {
                            assert(matches@[b] == before[b]);
                        }
                    }
                }
            } else {
                j = j + 1;
            }
        }
        i = i + 1;
    }
    proof {
        assert forall|a: int, b: int| 0 <= a < matches@.len() && 0 <= b < matches@.len() && a != b
            implies matches@[a] != matches@[b] by {
            if b < a {
                assert(matches@[b] != matches@[a]);
            }
        }
    }
}

impl<H, X> Resource<H, X> {
    fn recursive_push(tables: &Tables<H, X>, from: usize, matches: &mut Vec<usize>)
        requires
            tables.wf(),
            from < tables.resources@.len(),
        ensures
            final(matches)@.to_set() == old(matches)@.to_set() + subtree_ctx(tables, from as int),
        decreases tables.resources@.len() - from,
    {
        let ghost base = matches@.to_set();
        if tables.resources[from].context.is_some() {
            proof {
                lemma_push_to_set(matches@, from);
            }
            matches.push(from);
        }
        assert(matches@.to_set() =~= base + own(tables, from as int));
        let kids = &tables.resources[from].children;
        assert(tables.node_wf(from as int));
        let mut k: usize = 0;
        while k < kids.len()
            invariant
                tables.wf(),
                from < tables.resources@.len(),
                tables.node_wf(from as int),
                kids@ == tables.children_of(from as int),
                0 <= k <= kids@.len(),
                matches@.to_set() == base + own(tables, from as int) + subtree_ctx_kids(
                    tables,
                    from as int,
                    k as int,
                ),
            decreases kids@.len() - k,
        {
            let c = kids[k];
            assert(tables.child_ok(from as int, kids@[k as int] as int));
            Self::recursive_push(tables, c, matches);
            k = k + 1;
            assert(matches@.to_set() =~= base + own(tables, from as int) + subtree_ctx_kids(
                tables,
                from as int,
                k as int,
            ));
        }
    }

    #[verifier::loop_isolation(false)]
    fn get_matches_from(tables: &Tables<H, X>, key: &str, from: usize, matches: &mut Vec<usize>) -> (ok: bool)
        requires
            tables.wf(),
            from < tables.resources@.len(),
        ensures
            ok == matches_from(tables, key@, from as int) is Some,
            ok ==> final(matches)@.to_set() == old(matches)@.to_set() + matches_from(
                tables,
                key@,
                from as int,
            )->0,
        decreases key@.len(), tables.resources@.len() - from,
    {
        let ghost base = matches@.to_set();
        let node = &tables.resources[from];
        assert(tables.node_wf(from as int));
        let kids = &node.children;
        let full = node.suffix.as_str();
        let flen = full.unicode_len();
        let is_slash = flen == 1 && full.get_char(0) == '/';
        proof {
            if flen == 1 && full@[0] == '/' {
                assert(full@ =~= seq!['/']);
            }
        }
        if node.parent.is_none() || is_slash {
            let mut k: usize = 0;
            while k < kids.len()
                invariant
                    tables.wf(),
                    from < tables.resources@.len(),
                    tables.node_wf(from as int),
                    kids@ == tables.children_of(from as int),
                    0 <= k <= kids@.len(),
                    matches_kids(tables, key@, from as int, k as int) is Some,
                    matches@.to_set() == base + matches_kids(tables, key@, from as int, k as int)->0,
                decreases kids@.len() - k,
            {
                let c = kids[k];
                assert(tables.child_ok(from as int, kids@[k as int] as int));
                if !Self::get_matches_from(tables, key, c, matches) {
                    proof {
                        assert(matches_kids(tables, key@, from as int, k as int + 1) is None);
                        lemma_kids_fail(tables, key@, from as int, k as int + 1, kids@.len() as int);
                    }
                    return false;
                }
                k = k + 1;
                assert(matches@.to_set() =~= base + matches_kids(tables, key@, from as int, k as int)->0);
            }
            return true;
        }
        let sk: &str = if flen > 0 && full.get_char(0) == '/' {
            full.substring_char(1, flen)
        } else {
            full
        };
        proof {
            assert(sk@ == node_key(tables, from as int));
        }
        let (chunk, rest) = fst_chunk(key);
        if !check_keyexpr(sk) || !check_keyexpr(chunk) {
            return false;
        }
        if !intersects(chunk, sk) {
            assert(matches@.to_set() =~= base + Set::<usize>::empty());
            return true;
        }
        let ghost k_len = kids@.len() as int;
        match rest {
            None => {
                if is_double_star(chunk) {
                    Self::recursive_push(tables, from, matches);
                    return true;
                }
                if node.context.is_some() {
                    proof {
                        lemma_push_to_set(matches@, from);
                    }
                    matches.push(from);
                }
                assert(matches@.to_set() =~= base + own(tables, from as int));
                let ghost mid = matches@.to_set();
                if is_double_star(sk) {
                    let mut k: usize = 0;
                    while k < kids.len()
                        invariant
                            tables.wf(),
                            from < tables.resources@.len(),
                            tables.node_wf(from as int),
                            kids@ == tables.children_of(from as int),
                            0 <= k <= kids@.len(),
                            matches_kids(tables, key@, from as int, k as int) is Some,
                            matches@.to_set() == mid + matches_kids(tables, key@, from as int, k as int)->0,
                        decreases kids@.len() - k,
                    {
                        let c = kids[k];
                        assert(tables.child_ok(from as int, kids@[k as int] as int));
                        if !Self::get_matches_from(tables, key, c, matches) {
                            proof {
                                assert(matches_kids(tables, key@, from as int, k as int + 1) is None);
                                lemma_kids_fail(tables, key@, from as int, k as int + 1, kids@.len() as int);
                            }
                            return false;
                        }
                        k = k + 1;
                        assert(matches@.to_set() =~= mid + matches_kids(tables, key@, from as int, k as int)->0);
                    }
                }
                let ghost below = matches@.to_set();
                proof {
                    reveal_strlit("/**");
                    reveal_strlit("**");
                    assert("/**"@ =~= seq!['/', '*', '*']);
                    assert("**"@ =~= double_star());
                }
                let star = match tables.get_child(from, "/**") {
                    Some(c) => Some(c),
                    None => tables.get_child(from, "**"),
                };
                match star {
                    Some(c) => {
                        proof {
                            crate::tree::lemma_child_with_some(tables, from as int, if tables.child_with(from as int, seq!['/', '*', '*']) is Some { seq!['/', '*', '*'] } else { double_star() });
                        }
                        if tables.resources[c].context.is_some() {
                            proof {
                                lemma_push_to_set(matches@, c);
                            }
                            matches.push(c);
                        }
                        assert(star_child(tables, from as int) == own(tables, c as int));
                    },
                    None => {},
                }
                assert(matches@.to_set() =~= below + star_child(tables, from as int));
                true
            },
            Some(r) => {
                if is_double_star(r) {
                    Self::recursive_push(tables, from, matches);
                    return true;
                }
                let recheck = is_double_star(chunk) || is_double_star(sk);
                proof {
                    lemma_first_from(key@, '/', 0);
                    assert(r@.len() < key@.len());
                }
                let mut k: usize = 0;
                while k < kids.len()
                    invariant
                        tables.wf(),
                        from < tables.resources@.len(),
                        tables.node_wf(from as int),
                        kids@ == tables.children_of(from as int),
                        0 <= k <= kids@.len(),
                        r@.len() < key@.len(),
                        matches_kids2(tables, key@, r@, recheck, from as int, k as int) is Some,
                        matches@.to_set() == base + matches_kids2(tables, key@, r@, recheck, from as int, k as int)->0,
                    decreases kids@.len() - k,
                {
                    let c = kids[k];
                    assert(tables.child_ok(from as int, kids@[k as int] as int));
                    let ghost before = matches@.to_set();
                    if !Self::get_matches_from(tables, r, c, matches) {
                        proof {
                            assert(matches_kids2(tables, key@, r@, recheck, from as int, k as int + 1) is None);
                            lemma_kids2_fail(tables, key@, r@, recheck, from as int, k as int + 1, kids@.len() as int);
                        }
                        return false;
                    }
                    if recheck {
                        if !Self::get_matches_from(tables, key, c, matches) {
                            proof {
                                assert(matches_kids2(tables, key@, r@, recheck, from as int, k as int + 1) is None);
                            lemma_kids2_fail(tables, key@, r@, recheck, from as int, k as int + 1, kids@.len() as int);
                            }
                            return false;
                        }
                    }
                    k = k + 1;
                    assert(matches@.to_set() =~= base + matches_kids2(tables, key@, r@, recheck, from as int, k as int)->0);
                }
                let ghost after_kids = matches@.to_set();
                if recheck {
                    if !Self::get_matches_from(tables, r, from, matches) {
                        return false;
                    }
                }
                assert(matches@.to_set() =~= base + matches_from(tables, key@, from as int)->0);
                true
            },
        }
    }
    /// Runs the search for `key_expr` once from the root: `None` when it meets
    /// a suffix or a chunk that is not a key expression, else what it finds,
    /// each resource once.
    fn search(tables: &Tables<H, X>, key_expr: &str) -> (r: Option<Vec<usize>>)
        requires
            tables.wf(),
        ensures
            r is Some <==> matches_from(tables, key_expr@, 0) is Some,
            r matches Some(v) ==> v@.to_set() == matches_from(tables, key_expr@, 0)->0
                && v@.no_duplicates() && forall|k: int|
                0 <= k < v@.len() ==> (#[trigger] v@[k] as int) < tables.len() && tables.attached(
                    v@[k] as int,
                ) && tables.has_context(v@[k] as int),
    {
        proof {
            lemma_from_good(tables, key_expr@, 0);
        }
        let mut matches = Vec::new();
        assert(matches@.to_set() =~= Set::<usize>::empty());
        if !Self::get_matches_from(tables, key_expr, tables.root_res, &mut matches) {
            return None;
        }
        assert(matches@.to_set() =~= matches_from(tables, key_expr@, 0)->0);
        dedup(&mut matches);
        proof {
            assert forall|k: int| 0 <= k < matches@.len() implies (#[trigger] matches@[k] as int)
                < tables.len() && tables.attached(matches@[k] as int) && tables.has_context(
                matches@[k] as int,
            ) by {
                assert(matches@.to_set().contains(matches@[k]));
            }
        }
        Some(matches)
    }

    /// The resources with a routing context that the search for `key_expr`
    /// finds (see `matches_from`), each once. The search must meet only
    /// suffixes and chunks that are key expressions: a resource suffix that is
    /// not one cannot be read as a key expression.
    pub fn get_matches(tables: &Tables<H, X>, key_expr: &str) -> (r: Vec<usize>)
        requires
            tables.wf(),
            matches_from(tables, key_expr@, 0) is Some,
        ensures
            r@.to_set() == matches_from(tables, key_expr@, 0)->0,
            r@.no_duplicates(),
            forall|k: int|
                0 <= k < r@.len() ==> (#[trigger] r@[k] as int) < tables.len() && tables.attached(
                    r@[k] as int,
                ) && tables.has_context(r@[k] as int),
    {
        Self::search(tables, key_expr).unwrap()
    }

    /// The matches of `key_expr` where it is a key expression and the search
    /// meets only suffixes and chunks that are key expressions (see
    /// `get_matches`); `None` otherwise.
    pub fn try_get_matches(tables: &Tables<H, X>, key_expr: &str) -> (r: Option<Vec<usize>>)
        requires
            tables.wf(),
        ensures
            r is Some <==> (is_keyexpr(key_expr@) && matches_from(tables, key_expr@, 0) is Some),
            r matches Some(v) ==> v@.to_set() == matches_from(tables, key_expr@, 0)->0
                && v@.no_duplicates() && forall|k: int|
                0 <= k < v@.len() ==> (#[trigger] v@[k] as int) < tables.len() && tables.attached(
                    v@[k] as int,
                ) && tables.has_context(v@[k] as int),
    {
        if !check_keyexpr(key_expr) {
            return None;
        }
        Self::search(tables, key_expr)
    }

    /// Records that `res` matches each of `matches`: `res` is added to the
    /// matches of each of them (once per occurrence), and `matches` becomes
    /// the matches of `res`. Nothing happens when `res` has no routing context.
    /// The tables stay well-formed when `res` and all of `matches` are in the
    /// tree and `matches` keeps what `res` matched before.
    pub fn match_resource(tables: &mut Tables<H, X>, res: usize, matches: Vec<usize>)
        requires
            old(tables).wf(),
            (res as int) < old(tables).len(),
            old(tables).has_context(res as int) ==> forall|k: int|
                0 <= k < matches@.len() ==> (#[trigger] matches@[k] as int) < old(tables).len()
                    && old(tables).has_context(matches@[k] as int),
        ensures
            !old(tables).has_context(res as int) ==> *final(tables) == *old(tables),
            old(tables).has_context(res as int) ==> matched(
                old(tables),
                final(tables),
                res as int,
                matches@,
            ),
            old(tables).attached(res as int) && old(tables).has_context(res as int) && (forall|k: int|
                0 <= k < old(tables).matches_of(res as int).len() ==> has_index(
                    matches@,
                    #[trigger] old(tables).matches_of(res as int)[k] as int,
                )) && (forall|k: int|
                0 <= k < matches@.len() ==> old(tables).attached(#[trigger] matches@[k] as int))
                ==> final(tables).wf(),
    {
        if tables.resources[res].context.is_none() {
            return;
        }
        let ghost old_t = *tables;
        proof {
            assert forall|i: int| 0 <= i < old_t.len() implies #[trigger] matches_step(
                &old_t,
                tables,
                res as int,
                matches@.take(0),
                i,
            ) by {
                assert(old_t.matches_of(i) + Seq::new(0, |_j: int| res) =~= old_t.matches_of(i));
            }
        }
        let mut k: usize = 0;
        while k < matches.len()
            invariant
                0 <= k <= matches@.len(),
                old_t.has_context(res as int),
                forall|j: int|
                    0 <= j < matches@.len() ==> (#[trigger] matches@[j] as int) < old_t.len()
                        && old_t.has_context(matches@[j] as int),
                matched_upto(&old_t, tables, res as int, matches@.take(k as int)),
            decreases matches@.len() - k,
        {
            let m = matches[k];
            let ghost before = *tables;
            match &mut tables.resources[m].context {
                Some(ctx) => {
                    ctx.matches.push(res);
                },
                None => {},
            }
            proof {
                let mk = matches@.take(k as int + 1);
                assert(mk.drop_last() =~= matches@.take(k as int));
                assert forall|i: int| 0 <= i < old_t.len() implies #[trigger] matches_step(
                    &old_t,
                    tables,
                    res as int,
                    mk,
                    i,
                ) by {
                    assert(matches_step(&old_t, &before, res as int, matches@.take(k as int), i));
                    if i == m as int {
                        assert(Seq::new(occurrences(mk, i), |_j: int| res) =~= Seq::new(
                            occurrences(matches@.take(k as int), i),
                            |_j: int| res,
                        ).push(res));
                    } else {
                        assert(Seq::new(occurrences(mk, i), |_j: int| res) =~= Seq::new(
                            occurrences(matches@.take(k as int), i),
                            |_j: int| res,
                        ));
                    }
                }
            }
            k = k + 1;
        }
        let ghost pushed = *tables;
        match &mut tables.resources[res].context {
            Some(ctx) => {
                ctx.matches = matches;
            },
            None => {},
        }
        proof {
            assert(matches@.take(matches@.len() as int) =~= matches@);
            assert forall|i: int| 0 <= i < old_t.len() implies #[trigger] matches_step(
                &old_t,
                &pushed,
                res as int,
                matches@,
                i,
            ) by {}
            assert(matched(&old_t, tables, res as int, matches@)) by {
                assert forall|i: int| 0 <= i < old_t.len() implies #[trigger] matched_at(
                    &old_t,
                    tables,
                    res as int,
                    matches@,
                    i,
                ) by {
                    assert(matches_step(&old_t, &pushed, res as int, matches@, i));
                }
            }
            if old_t.attached(res as int) && (forall|k: int|
                0 <= k < old_t.matches_of(res as int).len() ==> has_index(
                    matches@,
                    #[trigger] old_t.matches_of(res as int)[k] as int,
                )) && (forall|k: int|
                0 <= k < matches@.len() ==> old_t.attached(#[trigger] matches@[k] as int)) {
                lemma_matched_wf(&old_t, tables, res as int, matches@);
            }
        }
    }
}

} // verus!
