//! What the search for a key expression is for: it finds every attached
//! resource with a routing context whose key expression meets the key
//! expression searched, `**` standing for any number of pieces on either
//! side.

use vstd::prelude::*;
use crate::cleanup::below;
use crate::keyexpr::{is_keyexpr, keyexprs_intersect};
use crate::keys::{first_from, lemma_first_from, lemma_first_from_is};
use crate::matching::{
    double_star, fst_split, matches_from, matches_kids, matches_kids2, node_key, own,
    star_child, subtree_ctx, subtree_ctx_kids,
};
use crate::tree::{has_index, lemma_attached_in_range, lemma_attached_parent, Tables};

verus! {

/// The `/`-separated pieces of `k`.
pub open spec fn pieces(k: Seq<char>) -> Seq<Seq<char>>
    decreases k.len(),
{
    match first_from(k, '/', 0) {
        Some(p) => {
            proof {
                lemma_first_from(k, '/', 0);
            }
            seq![k.take(p)] + pieces(k.skip(p + 1))
        },
        None => seq![k],
    }
}

/// No two `**` pieces follow each other.
pub open spec fn no_double_star(ps: Seq<Seq<char>>) -> bool {
    forall|i: int| 0 <= i < ps.len() - 1 ==> !(#[trigger] ps[i] == double_star() && ps[i + 1] == double_star())
}

/// Key pieces `ks` and resource pieces `rs` meet: they can be aligned so
/// that each pair of aligned pieces intersects, a `**` on either side
/// standing for no piece or for any number of pieces of the other side.
pub open spec fn meet(ks: Seq<Seq<char>>, rs: Seq<Seq<char>>) -> bool
    decreases ks.len() + rs.len(),
{
    if ks.len() == 0 && rs.len() == 0 {
        true
    } else {
        ||| (ks.len() > 0 && ks[0] == double_star() && meet(ks.drop_first(), rs))
        ||| (rs.len() > 0 && rs[0] == double_star() && meet(ks, rs.drop_first()))
        ||| (ks.len() > 0 && ks[0] == double_star() && rs.len() > 0 && meet(ks, rs.drop_first()))
        ||| (rs.len() > 0 && rs[0] == double_star() && ks.len() > 0 && meet(ks.drop_first(), rs))
        ||| (ks.len() > 0 && rs.len() > 0 && keyexprs_intersect(ks[0], rs[0]) && meet(
            ks.drop_first(),
            rs.drop_first(),
        ))
    }
}

/// `**` intersects every piece that is a key expression, both ways.
pub open spec fn star_meets_all() -> bool {
    forall|c: Seq<char>|
        #[trigger] is_keyexpr(c) ==> keyexprs_intersect(c, double_star()) && keyexprs_intersect(
            double_star(),
            c,
        )
}

/// The node keys on the way from `n` down to `r`.
pub open spec fn keys_from<H, X>(t: &Tables<H, X>, n: int, r: int) -> Seq<Seq<char>>
    decreases r,
{
    if r == n {
        seq![node_key(t, n)]
    } else {
        match t.parent_of(r) {
            Some(p) => if 0 <= p < r {
                keys_from(t, n, p as int).push(node_key(t, r))
            } else {
                seq![]
            },
            None => seq![],
        }
    }
}

/// The child of `n` on the way down to `r`.
pub open spec fn down<H, X>(t: &Tables<H, X>, n: int, r: int) -> int
    decreases r,
{
    match t.parent_of(r) {
        Some(p) => if p as int == n {
            r
        } else if 0 <= p < r {
            down(t, n, p as int)
        } else {
            r
        },
        None => r,
    }
}

/// Splitting `x + "/" + c`, where `c` holds no `/`, gives the pieces of `x`
/// and then `c`.
proof fn lemma_pieces_append(x: Seq<char>, c: Seq<char>)
    requires
        !c.contains('/'),
    ensures
        pieces(x + seq!['/'] + c) == pieces(x).push(c),
    decreases x.len(),
{
    let s = x + seq!['/'] + c;
    lemma_first_from(x, '/', 0);
    lemma_first_from(c, '/', 0);
    assert(first_from(c, '/', 0) is None) by {
        if first_from(c, '/', 0) is Some {
            let i = first_from(c, '/', 0)->0;
            assert(c[i] == '/');
        }
    }
    match first_from(x, '/', 0) {
        Some(q) => {
            assert forall|j: int| 0 <= j < q implies s[j] != '/' by {
                assert(s[j] == x[j]);
            }
            assert(s[q] == x[q]);
            lemma_first_from_is(s, '/', 0, Some(q));
            lemma_pieces_append(x.skip(q + 1), c);
            assert(s.take(q) =~= x.take(q));
            assert(s.skip(q + 1) =~= x.skip(q + 1) + seq!['/'] + c);
            assert(pieces(s) == seq![x.take(q)] + pieces(x.skip(q + 1)).push(c));
            assert(pieces(x) == seq![x.take(q)] + pieces(x.skip(q + 1)));
            assert(pieces(s) =~= pieces(x).push(c));
        },
        None => {
            assert forall|j: int| 0 <= j < x.len() implies s[j] != '/' by {
                assert(s[j] == x[j]);
            }
            assert(s[x.len() as int] == '/');
            lemma_first_from_is(s, '/', 0, Some(x.len() as int));
            assert(s.take(x.len() as int) =~= x);
            assert(s.skip(x.len() as int + 1) =~= c);
            assert(pieces(c) == seq![c]);
            assert(pieces(x) == seq![x]);
            assert(pieces(s) == seq![x] + pieces(c));
            assert(pieces(s) =~= pieces(x).push(c));
        },
    }
}

/// The way down from `n` to `r` starts with the key of `n` and ends with the
/// key of `r`.
proof fn lemma_keys_ends<H, X>(t: &Tables<H, X>, n: int, r: int)
    requires
        t.wf(),
        below(t, r, n),
    ensures
        keys_from(t, n, r).len() >= 1,
        keys_from(t, n, r)[0] == node_key(t, n),
        keys_from(t, n, r).last() == node_key(t, r),
    decreases r,
{
    if r != n {
        let p = t.parent_of(r)->0 as int;
        lemma_keys_ends(t, n, p);
    }
}

/// One step down from `n` towards `r`.
proof fn lemma_down<H, X>(t: &Tables<H, X>, n: int, r: int)
    requires
        t.wf(),
        0 <= n,
        t.attached(r),
        below(t, r, n),
        r != n,
    ensures
        ({
            let c = down(t, n, r);
            &&& (t.parent_of(c) matches Some(p) && p as int == n)
            &&& n < c <= r
            &&& t.attached(c)
            &&& has_index(t.children_of(n), c)
            &&& below(t, r, c)
            &&& keys_from(t, n, r) == seq![node_key(t, n)] + keys_from(t, c, r)
        }),
    decreases r,
{
    let p = t.parent_of(r)->0 as int;
    assert(r != 0);
    lemma_attached_parent(t, r);
    if p == n {
        assert(keys_from(t, r, r) == seq![node_key(t, r)]);
        assert(keys_from(t, n, n) == seq![node_key(t, n)]);
        assert(keys_from(t, n, r) =~= seq![node_key(t, n)] + keys_from(t, r, r));
    } else {
        lemma_down(t, n, p);
        let c = down(t, n, p);
        assert(down(t, n, r) == c);
        assert(keys_from(t, c, r) == keys_from(t, c, p).push(node_key(t, r)));
        assert(keys_from(t, n, r) =~= seq![node_key(t, n)] + keys_from(t, c, r));
    }
}

/// The first `k` children of `n`, child `j` among them, find what child `j`
/// finds.
proof fn lemma_kids_has<H, X>(t: &Tables<H, X>, key: Seq<char>, n: int, k: int, j: int)
    requires
        0 <= n < t.len(),
        0 <= j < k <= t.children_of(n).len(),
        n < t.children_of(n)[j] < t.len(),
        matches_kids(t, key, n, k) is Some,
    ensures
        matches_from(t, key, t.children_of(n)[j] as int) is Some,
        matches_from(t, key, t.children_of(n)[j] as int)->0.subset_of(
            matches_kids(t, key, n, k)->0,
        ),
    decreases k,
{
    if j < k - 1 {
        lemma_kids_has(t, key, n, k - 1, j);
    }
}

/// The same for the search of the rest of a key, and of the key itself
/// when it is checked again.
proof fn lemma_kids2_has<H, X>(
    t: &Tables<H, X>,
    key: Seq<char>,
    rest: Seq<char>,
    recheck: bool,
    n: int,
    k: int,
    j: int,
)
    requires
        0 <= n < t.len(),
        0 <= j < k <= t.children_of(n).len(),
        n < t.children_of(n)[j] < t.len(),
        rest.len() < key.len(),
        matches_kids2(t, key, rest, recheck, n, k) is Some,
    ensures
        matches_from(t, rest, t.children_of(n)[j] as int) is Some,
        matches_from(t, rest, t.children_of(n)[j] as int)->0.subset_of(
            matches_kids2(t, key, rest, recheck, n, k)->0,
        ),
        recheck ==> matches_from(t, key, t.children_of(n)[j] as int) is Some && matches_from(
            t,
            key,
            t.children_of(n)[j] as int,
        )->0.subset_of(matches_kids2(t, key, rest, recheck, n, k)->0),
    decreases k,
{
    if j < k - 1 {
        lemma_kids2_has(t, key, rest, recheck, n, k - 1, j);
    }
}

proof fn lemma_subtree_kids_has<H, X>(t: &Tables<H, X>, n: int, k: int, j: int)
    requires
        0 <= n < t.len(),
        0 <= j < k <= t.children_of(n).len(),
        n < t.children_of(n)[j] < t.len(),
    ensures
        subtree_ctx(t, t.children_of(n)[j] as int).subset_of(subtree_ctx_kids(t, n, k)),
    decreases k,
{
    if j < k - 1 {
        lemma_subtree_kids_has(t, n, k - 1, j);
    }
}

/// Everything with a routing context below `n` is in its subtree.
proof fn lemma_subtree_has<H, X>(t: &Tables<H, X>, n: int, r: int)
    requires
        t.wf(),
        0 <= n < t.len(),
        t.attached(r),
        t.has_context(r),
        below(t, r, n),
    ensures
        subtree_ctx(t, n).contains(r as usize),
    decreases r - n,
{
    lemma_attached_in_range(t, r);
    if r == n {
        assert(own(t, n).contains(r as usize));
    } else {
        lemma_down(t, n, r);
        let c = down(t, n, r);
        lemma_attached_in_range(t, c);
        lemma_subtree_has(t, c, r);
        let j = choose|j: int| 0 <= j < t.children_of(n).len() && t.children_of(n)[j] as int == c;
        lemma_subtree_kids_has(t, n, t.children_of(n).len() as int, j);
    }
}

/// A `/**` child with a routing context is what `star_child` gives.
proof fn lemma_star_has<H, X>(t: &Tables<H, X>, n: int, r: int)
    requires
        t.wf(),
        0 <= n < t.len(),
        t.attached(r),
        t.has_context(r),
        t.parent_of(r) matches Some(p) && p as int == n,
        t.parent_of(n) is Some,
        node_key(t, r) == double_star(),
    ensures
        star_child(t, n).contains(r as usize),
{
    assert(r != 0);
    lemma_attached_parent(t, r);
    assert(t.child_ok(n, r));
    assert(has_index(t.children_of(n), r));
    let s = t.suffix_of(r);
    assert(s[0] == '/');
    assert(s =~= seq!['/', '*', '*']) by {
        assert(s.len() > 0);
        assert(node_key(t, r) == s.skip(1));
        assert(s.skip(1) == double_star());
        assert(s.skip(1).len() == 2);
        assert(s.len() == 3);
        assert(s[1] == s.skip(1)[0]);
        assert(s[2] == s.skip(1)[1]);
    }
    let k = choose|k: int| 0 <= k < t.children_of(n).len() && t.children_of(n)[k] as int == r;
    crate::tree::lemma_child_with_is(t, n, k);
}

/// Resource pieces that meet no key piece are a single `**`.
proof fn lemma_meet_no_key(rs: Seq<Seq<char>>)
    requires
        rs.len() > 0,
        no_double_star(rs),
        meet(Seq::<Seq<char>>::empty(), rs),
    ensures
        rs == seq![double_star()],
{
    let e = Seq::<Seq<char>>::empty();
    assert(rs[0] == double_star() && meet(e, rs.drop_first()));
    if rs.len() > 1 {
        assert(meet(e, rs.drop_first()));
        assert(rs.drop_first()[0] == double_star() && meet(e, rs.drop_first().drop_first()));
        assert(rs[1] == double_star());
        assert(!(rs[0] == double_star() && rs[1] == double_star()));
    }
    assert(rs =~= seq![double_star()]);
}

/// Key pieces that meet no resource piece are a single `**`.
proof fn lemma_meet_no_res(ks: Seq<Seq<char>>)
    requires
        ks.len() > 0,
        no_double_star(ks),
        meet(ks, Seq::<Seq<char>>::empty()),
    ensures
        ks == seq![double_star()],
{
    let e = Seq::<Seq<char>>::empty();
    assert(ks[0] == double_star() && meet(ks.drop_first(), e));
    if ks.len() > 1 {
        assert(ks.drop_first()[0] == double_star() && meet(ks.drop_first().drop_first(), e));
        assert(ks[1] == double_star());
        assert(!(ks[0] == double_star() && ks[1] == double_star()));
    }
    assert(ks =~= seq![double_star()]);
}

/// A key whose pieces are a single piece is that piece.
proof fn lemma_one_piece(k: Seq<char>)
    requires
        pieces(k).len() == 1,
    ensures
        pieces(k)[0] == k,
{
    lemma_first_from(k, '/', 0);
    if first_from(k, '/', 0) is Some {
        let p = first_from(k, '/', 0)->0;
        assert(pieces(k) == seq![k.take(p)] + pieces(k.skip(p + 1)));
        lemma_pieces_len(k.skip(p + 1));
    }
}

proof fn lemma_pieces_len(k: Seq<char>)
    ensures
        pieces(k).len() >= 1,
    decreases k.len(),
{
    lemma_first_from(k, '/', 0);
    if first_from(k, '/', 0) is Some {
        let p = first_from(k, '/', 0)->0;
        lemma_pieces_len(k.skip(p + 1));
    }
}

/// The way down from `n` to `r` is one key long only when `r` is `n`.
proof fn lemma_one_key<H, X>(t: &Tables<H, X>, n: int, r: int)
    requires
        t.wf(),
        0 <= n,
        t.attached(r),
        below(t, r, n),
        keys_from(t, n, r).len() == 1,
    ensures
        r == n,
{
    if r != n {
        lemma_down(t, n, r);
        lemma_keys_ends(t, down(t, n, r), r);
    }
}

/// From a resource `n` on the way to `r`, the search for a key that meets
/// the keys on the way finds `r`.
proof fn lemma_found_from<H, X>(t: &Tables<H, X>, key: Seq<char>, n: int, r: int)
    requires
        t.wf(),
        0 <= n < t.len(),
        t.parent_of(n) is Some,
        t.attached(r),
        t.has_context(r),
        below(t, r, n),
        forall|i: int|
            0 <= i < keys_from(t, n, r).len() ==> (#[trigger] keys_from(t, n, r)[i]).len() > 0,
        no_double_star(pieces(key)),
        no_double_star(keys_from(t, n, r)),
        star_meets_all(),
        meet(pieces(key), keys_from(t, n, r)),
        matches_from(t, key, n) is Some,
    ensures
        matches_from(t, key, n)->0.contains(r as usize),
    decreases key.len(), r - n,
{
    lemma_attached_in_range(t, r);
    lemma_keys_ends(t, n, r);
    let cs = keys_from(t, n, r);
    let ks = pieces(key);
    let s = node_key(t, n);
    assert(cs[0] == s);
    assert(t.suffix_of(n) != seq!['/']) by {
        if t.suffix_of(n) == seq!['/'] {
            assert(s =~= Seq::<char>::empty());
        }
    }
    lemma_first_from(key, '/', 0);
    let chunk = fst_split(key).0;
    let rest = fst_split(key).1;
    let ks_rest = match rest {
        None => Seq::<Seq<char>>::empty(),
        Some(rr) => pieces(rr),
    };
    assert(ks == seq![chunk] + ks_rest);
    assert(ks[0] == chunk);
    assert(ks.drop_first() =~= ks_rest);
    assert(is_keyexpr(s) && is_keyexpr(chunk));
    assert(keyexprs_intersect(chunk, s)) by {
        if chunk == double_star() || s == double_star() {
            assert(is_keyexpr(s));
            assert(is_keyexpr(chunk));
        } else {
            assert(meet(ks, cs));
        }
    }
    // facts about the child on the way, when there is one
    let len = t.children_of(n).len() as int;
    if r != n {
        lemma_down(t, n, r);
        let c = down(t, n, r);
        lemma_attached_in_range(t, c);
        let j = choose|j: int| 0 <= j < t.children_of(n).len() && t.children_of(n)[j] as int == c;
        assert(cs.drop_first() =~= keys_from(t, c, r));
        assert forall|i: int|
            0 <= i < keys_from(t, c, r).len() implies (#[trigger] keys_from(t, c, r)[i]).len() > 0 by {
            assert(keys_from(t, c, r)[i] == cs[i + 1]);
        }
        assert forall|i: int| 0 <= i < keys_from(t, c, r).len() - 1 implies !(#[trigger] keys_from(
            t,
            c,
            r,
        )[i] == double_star() && keys_from(t, c, r)[i + 1] == double_star()) by {
            assert(keys_from(t, c, r)[i] == cs[i + 1]);
            assert(keys_from(t, c, r)[i + 1] == cs[i + 2]);
        }
        assert(t.parent_of(c) is Some);
        assert(n < t.children_of(n)[j] < t.len());
    }
    match rest {
        None => {
            assert(ks =~= seq![chunk]);
            if chunk == double_star() {
                lemma_subtree_has(t, n, r);
            } else if r == n {
                assert(own(t, n).contains(r as usize));
            } else {
                let c = down(t, n, r);
                let j = choose|j: int| 0 <= j < t.children_of(n).len() && t.children_of(n)[j] as int == c;
                lemma_keys_ends(t, c, r);
                let cs1 = cs.drop_first();
                if s == double_star() && meet(ks, cs1) {
                    lemma_kids_has(t, key, n, len, j);
                    lemma_found_from(t, key, c, r);
                } else if meet(ks.drop_first(), cs1) {
                    assert(no_double_star(cs1)) by {
                        assert forall|i: int| 0 <= i < cs1.len() - 1 implies !(#[trigger] cs1[i]
                            == double_star() && cs1[i + 1] == double_star()) by {
                            assert(cs1[i] == cs[i + 1]);
                            assert(cs1[i + 1] == cs[i + 2]);
                        }
                    }
                    assert(ks.drop_first() =~= Seq::<Seq<char>>::empty());
                    lemma_meet_no_key(cs1);
                    lemma_one_key(t, c, r);
                    assert(node_key(t, r) == cs.last());
                    lemma_star_has(t, n, r);
                } else if s == double_star() && meet(ks.drop_first(), cs) {
                    assert(no_double_star(cs));
                    assert(ks.drop_first() =~= Seq::<Seq<char>>::empty());
                    lemma_meet_no_key(cs);
                } else {
                    assert(meet(ks, cs));
                    assert(false);
                }
            }
        },
        Some(rr) => {
            lemma_pieces_len(rr);
            assert(rr.len() < key.len());
            if rr == double_star() {
                lemma_subtree_has(t, n, r);
            } else {
                let recheck = chunk == double_star() || s == double_star();
                assert(no_double_star(pieces(rr))) by {
                    assert forall|i: int| 0 <= i < pieces(rr).len() - 1 implies !(#[trigger] pieces(
                        rr,
                    )[i] == double_star() && pieces(rr)[i + 1] == double_star()) by {
                        assert(pieces(rr)[i] == ks[i + 1]);
                        assert(pieces(rr)[i + 1] == ks[i + 2]);
                    }
                }
                if (chunk == double_star() && meet(pieces(rr), cs)) || (s == double_star() && meet(
                    pieces(rr),
                    cs,
                )) {
                    lemma_found_from(t, rr, n, r);
                } else if recheck && meet(ks, cs.drop_first()) {
                    if r == n {
                        assert(cs.drop_first() =~= Seq::<Seq<char>>::empty());
                        lemma_meet_no_res(ks);
                        assert(false);
                    }
                    let c = down(t, n, r);
                    let j = choose|j: int| 0 <= j < t.children_of(n).len() && t.children_of(n)[j] as int == c;
                    lemma_kids2_has(t, key, rr, recheck, n, len, j);
                    lemma_found_from(t, key, c, r);
                } else if meet(pieces(rr), cs.drop_first()) {
                    if r == n {
                        assert(cs.drop_first() =~= Seq::<Seq<char>>::empty());
                        lemma_meet_no_res(pieces(rr));
                        lemma_one_piece(rr);
                        assert(false);
                    }
                    let c = down(t, n, r);
                    let j = choose|j: int| 0 <= j < t.children_of(n).len() && t.children_of(n)[j] as int == c;
                    lemma_kids2_has(t, key, rr, recheck, n, len, j);
                    lemma_found_from(t, rr, c, r);
                } else {
                    assert(meet(ks, cs));
                    assert(false);
                }
            }
        },
    }
}

/// Every attached resource hangs below the root.
proof fn lemma_below_root<H, X>(t: &Tables<H, X>, r: int)
    requires
        t.wf(),
        t.attached(r),
    ensures
        below(t, r, 0),
    decreases r,
{
    if r != 0 {
        lemma_attached_parent(t, r);
        lemma_below_root(t, t.parent_of(r)->0 as int);
    }
}

/// The pieces of the key of an attached resource, none of them empty, are
/// the keys on the way down to it from the child of the root above it.
proof fn lemma_pieces_expr<H, X>(t: &Tables<H, X>, r: int)
    requires
        t.wf(),
        t.attached(r),
        r != 0,
        forall|i: int|
            0 <= i < pieces(t.expr_of(r)).len() ==> (#[trigger] pieces(t.expr_of(r))[i]).len() > 0,
    ensures
        pieces(t.expr_of(r)) == keys_from(t, down(t, 0, r), r),
    decreases r,
{
    lemma_attached_parent(t, r);
    lemma_below_root(t, r);
    let p = t.parent_of(r)->0 as int;
    let sfx = t.suffix_of(r);
    assert(t.child_ok(p, r));
    if p == 0 {
        assert(t.expr_of(0) =~= Seq::<char>::empty());
        assert(t.expr_of(r) =~= sfx);
        assert(down(t, 0, r) == r);
        lemma_first_from(sfx, '/', 0);
        if sfx[0] == '/' {
            lemma_first_from_is(sfx, '/', 0, Some(0));
            assert(pieces(sfx)[0] =~= Seq::<char>::empty());
            assert(false);
        }
        assert forall|j: int| 0 <= j < sfx.len() implies sfx[j] != '/' by {
            if j == 0 {
            }
        }
        lemma_first_from_is(sfx, '/', 0, None);
        assert(node_key(t, r) == sfx);
    } else {
        let c = sfx.skip(1);
        assert(sfx =~= seq!['/'] + c);
        assert(node_key(t, r) == c);
        assert(!c.contains('/')) by {
            if c.contains('/') {
                let j = choose|j: int| 0 <= j < c.len() && c[j] == '/';
                assert(sfx[j + 1] == '/');
            }
        }
        assert(t.expr_of(r) =~= t.expr_of(p) + seq!['/'] + c);
        lemma_pieces_append(t.expr_of(p), c);
        assert forall|i: int|
            0 <= i < pieces(t.expr_of(p)).len() implies (#[trigger] pieces(t.expr_of(p))[i]).len()
            > 0 by {
            assert(pieces(t.expr_of(p))[i] == pieces(t.expr_of(r))[i]);
        }
        lemma_pieces_expr(t, p);
        lemma_below_root(t, p);
        lemma_down(t, 0, p);
        assert(down(t, 0, r) == down(t, 0, p));
    }
}

/// The search for a key expression finds every attached resource with a
/// routing context whose key expression meets it: the `/`-separated pieces
/// of the two can be aligned so that aligned pieces intersect, a `**` on
/// either side standing for any number of pieces of the other. This holds
/// where `**` intersects every piece that is a key expression, where neither
/// side has two `**` pieces in a row, and where the resource's key has no
/// empty piece, as for key expressions in canonical form. With the search's
/// own precondition, it is what `get_matches` returns.
pub proof fn law_search_finds<H, X>(t: &Tables<H, X>, key: Seq<char>, r: int)
    requires
        t.wf(),
        t.attached(r),
        t.has_context(r),
        r != 0,
        matches_from(t, key, 0) is Some,
        star_meets_all(),
        no_double_star(pieces(key)),
        no_double_star(pieces(t.expr_of(r))),
        forall|i: int|
            0 <= i < pieces(t.expr_of(r)).len() ==> (#[trigger] pieces(t.expr_of(r))[i]).len() > 0,
        meet(pieces(key), pieces(t.expr_of(r))),
    ensures
        matches_from(t, key, 0)->0.contains(r as usize),
{
    lemma_attached_in_range(t, r);
    lemma_below_root(t, r);
    lemma_pieces_expr(t, r);
    lemma_down(t, 0, r);
    let c = down(t, 0, r);
    lemma_attached_in_range(t, c);
    let j = choose|j: int| 0 <= j < t.children_of(0).len() && t.children_of(0)[j] as int == c;
    lemma_kids_has(t, key, 0, t.children_of(0).len() as int, j);
    assert(c != 0);
    lemma_attached_parent(t, c);
    lemma_found_from(t, key, c, r);
}

/// Some key on the way is empty (a `/` resource, or a first key starting
/// with `/`).
pub open spec fn has_empty(ks: Seq<Seq<char>>) -> bool {
    exists|i: int| 0 <= i < ks.len() && (#[trigger] ks[i]).len() == 0
}

/// `**` alone meets any resource pieces.
proof fn lemma_star_any(rs: Seq<Seq<char>>)
    ensures
        meet(seq![double_star()], rs),
    decreases rs.len(),
{
    let ks = seq![double_star()];
    if rs.len() == 0 {
        assert(ks.drop_first() =~= Seq::<Seq<char>>::empty());
        assert(meet(ks.drop_first(), rs));
    } else {
        lemma_star_any(rs.drop_first());
    }
}

/// A resource below a child of `n` is below `n`, one key further.
proof fn lemma_below_step<H, X>(t: &Tables<H, X>, n: int, c: int, x: int)
    requires
        t.parent_of(c) matches Some(p) && p as int == n,
        0 <= n < c,
        below(t, x, c),
    ensures
        below(t, x, n),
        x >= c,
        keys_from(t, n, x) == seq![node_key(t, n)] + keys_from(t, c, x),
    decreases x,
{
    if x == c {
        assert(below(t, n, n));
        assert(keys_from(t, n, n) == seq![node_key(t, n)]);
        assert(keys_from(t, c, c) == seq![node_key(t, c)]);
        assert(keys_from(t, n, x) =~= seq![node_key(t, n)] + keys_from(t, c, x));
    } else {
        let p = t.parent_of(x)->0 as int;
        lemma_below_step(t, n, c, p);
        assert(x != n);
        assert(below(t, x, n));
        assert(keys_from(t, n, x) =~= seq![node_key(t, n)] + keys_from(t, c, x));
    }
}

/// What the first `k` children of `n` find, one of them found.
proof fn lemma_kids_mem<H, X>(t: &Tables<H, X>, key: Seq<char>, n: int, k: int, x: usize) -> (j: int)
    requires
        0 <= n < t.len(),
        matches_kids(t, key, n, k) is Some,
        matches_kids(t, key, n, k)->0.contains(x),
    ensures
        0 <= j < t.children_of(n).len(),
        n < t.children_of(n)[j] < t.len(),
        matches_from(t, key, t.children_of(n)[j] as int) is Some,
        matches_from(t, key, t.children_of(n)[j] as int)->0.contains(x),
    decreases k,
{
    let c = t.children_of(n)[k - 1] as int;
    if matches_kids(t, key, n, k - 1)->0.contains(x) {
        lemma_kids_mem(t, key, n, k - 1, x)
    } else {
        k - 1
    }
}

/// The same for the search of the rest of a key (or of the key itself when
/// it is checked again).
proof fn lemma_kids2_mem<H, X>(
    t: &Tables<H, X>,
    key: Seq<char>,
    rest: Seq<char>,
    recheck: bool,
    n: int,
    k: int,
    x: usize,
) -> (j: int)
    requires
        0 <= n < t.len(),
        matches_kids2(t, key, rest, recheck, n, k) is Some,
        matches_kids2(t, key, rest, recheck, n, k)->0.contains(x),
    ensures
        0 <= j < t.children_of(n).len(),
        n < t.children_of(n)[j] < t.len(),
        rest.len() < key.len(),
        matches_from(t, rest, t.children_of(n)[j] as int) is Some,
        (matches_from(t, rest, t.children_of(n)[j] as int)->0.contains(x)) || (recheck
            && matches_from(t, key, t.children_of(n)[j] as int) is Some && matches_from(
            t,
            key,
            t.children_of(n)[j] as int,
        )->0.contains(x)),
    decreases k,
{
    if matches_kids2(t, key, rest, recheck, n, k - 1)->0.contains(x) {
        lemma_kids2_mem(t, key, rest, recheck, n, k - 1, x)
    } else {
        k - 1
    }
}

proof fn lemma_subtree_mem<H, X>(t: &Tables<H, X>, n: int, x: usize)
    requires
        t.wf(),
        t.len() <= usize::MAX,
        0 <= n < t.len(),
        subtree_ctx(t, n).contains(x),
    ensures
        below(t, x as int, n),
    decreases t.len() - n, t.children_of(n).len() + 1,
{
    if !own(t, n).contains(x) {
        lemma_subtree_kids_mem(t, n, t.children_of(n).len() as int, x);
    }
}

proof fn lemma_subtree_kids_mem<H, X>(t: &Tables<H, X>, n: int, k: int, x: usize)
    requires
        t.wf(),
        t.len() <= usize::MAX,
        0 <= n < t.len(),
        subtree_ctx_kids(t, n, k).contains(x),
    ensures
        below(t, x as int, n),
    decreases t.len() - n, k,
{
    let c = t.children_of(n)[k - 1] as int;
    if subtree_ctx_kids(t, n, k - 1).contains(x) {
        lemma_subtree_kids_mem(t, n, k - 1, x);
    } else {
        assert(t.node_wf(n));
        assert(t.child_ok(n, c));
        lemma_subtree_mem(t, c, x);
        lemma_below_step(t, n, c, x as int);
    }
}

/// Every resource the search from `n` finds lies below `n`, and the key
/// searched meets the keys on the way down to it, unless one of those keys
/// is empty.
proof fn lemma_sound_from<H, X>(t: &Tables<H, X>, key: Seq<char>, n: int, x: usize)
    requires
        t.wf(),
        t.len() <= usize::MAX,
        0 <= n < t.len(),
        t.parent_of(n) is Some,
        matches_from(t, key, n) is Some,
        matches_from(t, key, n)->0.contains(x),
    ensures
        below(t, x as int, n),
        meet(pieces(key), keys_from(t, n, x as int)) || has_empty(keys_from(t, n, x as int)),
    decreases key.len(), t.len() - n,
{
    let xi = x as int;
    let s = node_key(t, n);
    let len = t.children_of(n).len() as int;
    assert(t.node_wf(n));
    if t.suffix_of(n) == seq!['/'] {
        let j = lemma_kids_mem(t, key, n, len, x);
        let c = t.children_of(n)[j] as int;
        assert(t.child_ok(n, c));
        lemma_sound_from(t, key, c, x);
        lemma_below_step(t, n, c, xi);
        assert(s =~= Seq::<char>::empty());
        assert(keys_from(t, n, xi)[0] == s);
        return;
    }
    lemma_first_from(key, '/', 0);
    let chunk = fst_split(key).0;
    let rest = fst_split(key).1;
    let ks = pieces(key);
    let ks_rest = match rest {
        None => Seq::<Seq<char>>::empty(),
        Some(rr) => pieces(rr),
    };
    assert(ks == seq![chunk] + ks_rest);
    assert(ks[0] == chunk);
    assert(ks.drop_first() =~= ks_rest);
    assert(keyexprs_intersect(chunk, s));
    match rest {
        None => {
            if chunk == double_star() {
                lemma_subtree_mem(t, n, x);
                assert(ks =~= seq![double_star()]);
                lemma_star_any(keys_from(t, n, xi));
            } else if own(t, n).contains(x) {
                assert(xi == n);
                assert(keys_from(t, n, n) == seq![s]);
                assert(ks.drop_first() =~= Seq::<Seq<char>>::empty());
                assert(keys_from(t, n, n).drop_first() =~= Seq::<Seq<char>>::empty());
                assert(meet(ks.drop_first(), keys_from(t, n, n).drop_first()));
                assert(keys_from(t, n, n)[0] == s);
                assert(meet(ks, keys_from(t, n, xi)));
            } else if star_child(t, n).contains(x) {
                let m = xi;
                if t.child_with(n, seq!['/', '*', '*']) is Some {
                    crate::tree::lemma_child_with_some(t, n, seq!['/', '*', '*']);
                    assert(m == t.child_with(n, seq!['/', '*', '*'])->0);
                    assert(t.child_ok(n, m));
                    assert(node_key(t, m) =~= double_star());
                } else {
                    crate::tree::lemma_child_with_some(t, n, double_star());
                    assert(m == t.child_with(n, double_star())->0);
                    assert(t.child_ok(n, m));
                    assert(false);
                }
                assert(below(t, m, m));
                lemma_below_step(t, n, m, m);
                assert(keys_from(t, m, m) == seq![node_key(t, m)]);
                let kf = keys_from(t, n, m);
                assert(kf =~= seq![s, double_star()]);
                assert(ks.drop_first() =~= Seq::<Seq<char>>::empty());
                assert(kf.drop_first() =~= seq![double_star()]);
                assert(kf.drop_first().drop_first() =~= Seq::<Seq<char>>::empty());
                assert(meet(ks.drop_first(), kf.drop_first().drop_first()));
                assert(meet(ks.drop_first(), kf.drop_first()));
                assert(kf[0] == s);
                assert(meet(ks, kf));
            } else {
                assert(s == double_star());
                let j = lemma_kids_mem(t, key, n, len, x);
                let c = t.children_of(n)[j] as int;
                assert(t.child_ok(n, c));
                lemma_sound_from(t, key, c, x);
                lemma_below_step(t, n, c, xi);
                let kf = keys_from(t, n, xi);
                assert(kf.drop_first() =~= keys_from(t, c, xi));
                if has_empty(keys_from(t, c, xi)) {
                    let i = choose|i: int| 0 <= i < keys_from(t, c, xi).len() && (#[trigger] keys_from(t, c, xi)[i]).len() == 0;
                    assert(kf[i + 1] == keys_from(t, c, xi)[i]);
                } else {
                    lemma_keys_ends(t, n, xi);
                    assert(kf[0] == s);
                    assert(meet(ks, kf));
                }
            }
        },
        Some(rr) => {
            if rr == double_star() {
                lemma_subtree_mem(t, n, x);
                lemma_keys_ends(t, n, xi);
                let kf = keys_from(t, n, xi);
                lemma_star_any(kf.drop_first());
                assert(pieces(rr) == seq![rr]) by {
                    lemma_first_from(rr, '/', 0);
                    if first_from(rr, '/', 0) is Some {
                        let i = first_from(rr, '/', 0)->0;
                        assert(rr[i] == '/');
                    }
                }
                assert(ks.drop_first() =~= seq![double_star()]);
            } else {
                let recheck = chunk == double_star() || s == double_star();
                let kf = keys_from(t, n, xi);
                if matches_kids2(t, key, rr, recheck, n, len)->0.contains(x) {
                    let j = lemma_kids2_mem(t, key, rr, recheck, n, len, x);
                    let c = t.children_of(n)[j] as int;
                    assert(t.child_ok(n, c));
                    if matches_from(t, rr, c)->0.contains(x) {
                        lemma_sound_from(t, rr, c, x);
                    } else {
                        lemma_sound_from(t, key, c, x);
                    }
                    lemma_below_step(t, n, c, xi);
                    assert(kf.drop_first() =~= keys_from(t, c, xi));
                    assert(kf[0] == s);
                    if has_empty(keys_from(t, c, xi)) {
                        let i = choose|i: int| 0 <= i < keys_from(t, c, xi).len() && (#[trigger] keys_from(t, c, xi)[i]).len() == 0;
                        assert(kf[i + 1] == keys_from(t, c, xi)[i]);
                    }
                } else {
                    lemma_sound_from(t, rr, n, x);
                    lemma_keys_ends(t, n, xi);
                    assert(kf[0] == s);
                }
            }
        },
    }
}

/// Every resource the search for a key expression finds has a routing
/// context, and its key expression meets the key expression searched (see
/// `meet`), when no piece of its key is empty. With the search's own
/// precondition, this is what `get_matches` returns.
pub proof fn law_search_sound<H, X>(t: &Tables<H, X>, key: Seq<char>, x: usize)
    requires
        t.wf(),
        t.len() <= usize::MAX,
        matches_from(t, key, 0) is Some,
        matches_from(t, key, 0)->0.contains(x),
        forall|i: int|
            0 <= i < pieces(t.expr_of(x as int)).len() ==> (#[trigger] pieces(
                t.expr_of(x as int),
            )[i]).len() > 0,
    ensures
        t.attached(x as int),
        t.has_context(x as int),
        meet(pieces(key), pieces(t.expr_of(x as int))),
{
    crate::matching::lemma_from_good(t, key, 0);
    let xi = x as int;
    let len = t.children_of(0).len() as int;
    let j = lemma_kids_mem(t, key, 0, len, x);
    let c = t.children_of(0)[j] as int;
    assert(t.node_wf(0));
    assert(t.child_ok(0, c));
    lemma_sound_from(t, key, c, x);
    assert(xi != 0) by {
        lemma_below_step(t, 0, c, xi);
    }
    lemma_pieces_expr(t, xi);
    lemma_below_root(t, xi);
    lemma_down(t, 0, xi);
    let c1 = down(t, 0, xi);
    assert(c1 == c) by {
        lemma_below_step(t, 0, c, xi);
        lemma_down_unique(t, c, xi);
    }
    if has_empty(keys_from(t, c, xi)) {
        let i = choose|i: int| 0 <= i < keys_from(t, c, xi).len() && (#[trigger] keys_from(t, c, xi)[i]).len() == 0;
        assert(pieces(t.expr_of(xi))[i].len() > 0);
    }
}

/// Below a child `c` of the root, the way down from the root starts at `c`.
proof fn lemma_down_unique<H, X>(t: &Tables<H, X>, c: int, x: int)
    requires
        t.wf(),
        t.parent_of(c) matches Some(p) && p as int == 0,
        0 < c,
        below(t, x, c),
    ensures
        down(t, 0, x) == c,
    decreases x,
{
    if x != c {
        let p = t.parent_of(x)->0 as int;
        lemma_below_step(t, 0, c, p);
        lemma_down_unique(t, c, p);
        assert(p != 0);
    }
}

} // verus!
