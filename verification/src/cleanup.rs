//! Unlinking resources that nothing holds any more, and closing a tree.

use vstd::prelude::*;
use crate::matching::same_but_matches;
use crate::tree::{
    has_index, lemma_attached_in_range, lemma_attached_parent, Resource, Tables,
};

verus! {

/// `s` without the entries that `r` holds.
pub open spec fn drop_in(s: Seq<usize>, r: Set<int>) -> Seq<usize>
    decreases s.len(),
{
    if s.len() == 0 {
        s
    } else {
        let rest = drop_in(s.drop_last(), r);
        if r.contains(s.last() as int) {
            rest
        } else {
            rest.push(s.last())
        }
    }
}

pub proof fn lemma_drop_in_index(s: Seq<usize>, r: Set<int>, y: int)
    ensures
        has_index(drop_in(s, r), y) <==> has_index(s, y) && !r.contains(y),
    decreases s.len(),
{
    if s.len() > 0 {
        let d = s.drop_last();
        lemma_drop_in_index(d, r, y);
        let rest = drop_in(d, r);
        if has_index(s, y) && !r.contains(y) {
            let k = choose|k: int| 0 <= k < s.len() && s[k] as int == y;
            if k < d.len() {
                assert(d[k] as int == y);
                let k2 = choose|k2: int| 0 <= k2 < rest.len() && rest[k2] as int == y;
                if !r.contains(s.last() as int) {
                    assert(rest.push(s.last())[k2] as int == y);
                }
            } else {
                assert(rest.push(s.last())[rest.len() as int] as int == y);
            }
        }
        if has_index(drop_in(s, r), y) {
            let dr = drop_in(s, r);
            let k = choose|k: int| 0 <= k < dr.len() && dr[k] as int == y;
            if r.contains(s.last() as int) || k < rest.len() {
                assert(rest[k] as int == y);
                let k2 = choose|k2: int| 0 <= k2 < d.len() && d[k2] as int == y;
                assert(s[k2] as int == y);
            } else {
                assert(s.last() as int == y);
                assert(s[s.len() - 1] as int == y);
            }
        }
    }
}

pub proof fn lemma_drop_in_none(s: Seq<usize>, r: Set<int>)
    requires
        forall|k: int| 0 <= k < s.len() ==> !r.contains(#[trigger] s[k] as int),
    ensures
        drop_in(s, r) == s,
    decreases s.len(),
{
    if s.len() > 0 {
        lemma_drop_in_none(s.drop_last(), r);
        assert(s.drop_last().push(s.last()) =~= s);
    }
}

pub proof fn lemma_drop_in_twice(s: Seq<usize>, a: Set<int>, b: Set<int>)
    ensures
        drop_in(drop_in(s, a), b) == drop_in(s, a + b),
    decreases s.len(),
{
    if s.len() > 0 {
        lemma_drop_in_twice(s.drop_last(), a, b);
        let rest = drop_in(s.drop_last(), a);
        if !a.contains(s.last() as int) {
            assert(rest.push(s.last()).drop_last() =~= rest);
        }
    }
}

pub proof fn lemma_drop_in_no_dups(s: Seq<usize>, r: Set<int>)
    requires
        s.no_duplicates(),
    ensures
        drop_in(s, r).no_duplicates(),
    decreases s.len(),
{
    if s.len() > 0 {
        let d = s.drop_last();
        assert(d.no_duplicates());
        lemma_drop_in_no_dups(d, r);
        let rest = drop_in(d, r);
        if !r.contains(s.last() as int) {
            lemma_drop_in_index(d, r, s.last() as int);
            if has_index(d, s.last() as int) {
                let k = choose|k: int| 0 <= k < d.len() && d[k] as int == s.last() as int;
                assert(s[k] == s[s.len() - 1]);
            }
            assert forall|a: int, b: int| 0 <= a < b < rest.push(s.last()).len() implies rest.push(
                s.last(),
            )[a] != rest.push(s.last())[b] by {
                if b == rest.len() {
                    assert(rest[a] as int == rest[a] as int);
                    assert(has_index(rest, rest[a] as int));
                }
            }
        }
    }
}

/// A children list holds no index twice.
pub proof fn lemma_children_no_dups<H, X>(t: &Tables<H, X>, i: int)
    requires
        t.wf(),
        0 <= i < t.len(),
    ensures
        t.children_of(i).no_duplicates(),
{
    assert(t.node_wf(i));
    assert(t.children_distinct(i));
}

/// Node `x` can go when reached by `clean`: it has a parent, no holder, and
/// no child but `prev`, the node removed just before (if any).
pub open spec fn removable<H, X>(t: &Tables<H, X>, x: int, prev: Option<int>) -> bool {
    &&& 0 <= x < t.len()
    &&& t.parent_of(x) is Some
    &&& t.resources@[x].holders == 0
    &&& match prev {
        None => t.children_of(x).len() == 0,
        Some(c) => t.children_of(x).len() == 1 && t.children_of(x)[0] as int == c,
    }
}

/// The nodes that `clean` removes, from `x` up.
pub open spec fn clean_chain<H, X>(t: &Tables<H, X>, x: int, prev: Option<int>) -> Seq<int>
    decreases x,
{
    if removable(t, x, prev) && (t.parent_of(x)->0 as int) < x {
        seq![x] + clean_chain(t, t.parent_of(x)->0 as int, Some(x))
    } else {
        seq![]
    }
}

/// Node `i` after the nodes of `r` were unlinked.
pub open spec fn clean_at<H, X>(old: &Tables<H, X>, new: &Tables<H, X>, r: Set<int>, i: int) -> bool {
    &&& new.resources@[i].parent == old.resources@[i].parent
    &&& new.resources@[i].suffix == old.resources@[i].suffix
    &&& new.resources@[i].session_ctxs == old.resources@[i].session_ctxs
    &&& new.resources@[i].holders == old.resources@[i].holders
    &&& new.has_context(i) == old.has_context(i)
    &&& (old.has_context(i) ==> same_but_matches(
        new.resources@[i].context->0,
        old.resources@[i].context->0,
    ))
    &&& (r.contains(i) ==> {
        &&& new.resources@[i].nonwild_prefix is None
        &&& new.children_of(i).len() == 0
        &&& !new.attached(i)
    })
    &&& (!r.contains(i) ==> {
        &&& new.resources@[i].nonwild_prefix == old.resources@[i].nonwild_prefix
        &&& new.children_of(i) == drop_in(old.children_of(i), r)
        &&& new.attached(i) == old.attached(i)
        &&& (old.attached(i) && old.has_context(i) ==> new.matches_of(i) == drop_in(
            old.matches_of(i),
            r,
        ))
        &&& (!old.attached(i) && old.has_context(i) ==> new.matches_of(i) == old.matches_of(i))
    })
}

/// `new` is `old` with the nodes of `r` unlinked.
pub open spec fn cleaned<H, X>(old: &Tables<H, X>, new: &Tables<H, X>, r: Set<int>) -> bool {
    &&& new.wf()
    &&& new.root_res == old.root_res
    &&& new.len() == old.len()
    &&& forall|i: int| 0 <= i < old.len() ==> #[trigger] clean_at(old, new, r, i)
}

/// Unlinking `a` then `b` unlinks both.
pub proof fn lemma_cleaned_trans<H, X>(
    a: &Tables<H, X>,
    b: &Tables<H, X>,
    c: &Tables<H, X>,
    ra: Set<int>,
    rb: Set<int>,
)
    requires
        cleaned(a, b, ra),
        cleaned(b, c, rb),
    ensures
        cleaned(a, c, ra + rb),
{
    assert forall|i: int| 0 <= i < a.len() implies #[trigger] clean_at(a, c, ra + rb, i) by {
        assert(clean_at(a, b, ra, i));
        assert(clean_at(b, c, rb, i));
        if !ra.contains(i) && !rb.contains(i) {
            lemma_drop_in_twice(a.children_of(i), ra, rb);
            if a.attached(i) && a.has_context(i) {
                lemma_drop_in_twice(a.matches_of(i), ra, rb);
            }
        }
        if ra.contains(i) && !rb.contains(i) {
            assert(drop_in(b.children_of(i), rb) =~= b.children_of(i));
        }
    }
}

/// Unlinking nothing changes nothing.
pub proof fn lemma_cleaned_none<H, X>(a: &Tables<H, X>)
    requires
        a.wf(),
    ensures
        cleaned(a, a, Set::empty()),
{
    assert forall|i: int| 0 <= i < a.len() implies #[trigger] clean_at(a, a, Set::empty(), i) by {
        lemma_drop_in_none(a.children_of(i), Set::empty());
        lemma_drop_in_none(a.matches_of(i), Set::empty());
    }
}

/// `v` without the entries equal to `x`.
fn without(v: &Vec<usize>, x: usize) -> (r: Vec<usize>)
    ensures
        r@ == drop_in(v@, set![x as int]),
{
    let mut r: Vec<usize> = Vec::new();
    let mut k: usize = 0;
    while k < v.len()
        invariant
            0 <= k <= v@.len(),
            r@ == drop_in(v@.take(k as int), set![x as int]),
        decreases v@.len() - k,
    {
        assert(v@.take(k as int + 1).drop_last() =~= v@.take(k as int));
        if v[k] != x {
            r.push(v[k]);
        }
        k = k + 1;
    }
    assert(v@.take(v@.len() as int) =~= v@);
    r
}

impl<H, X> Resource<H, X> {
    /// Unlinks the childless node `x` from its parent `p` and from the
    /// matches of the resources it matches.
    fn unlink(tables: &mut Tables<H, X>, x: usize, p: usize)
        requires
            old(tables).wf(),
            old(tables).attached(x as int),
            old(tables).parent_of(x as int) == Some(p),
            old(tables).children_of(x as int).len() == 0,
        ensures
            cleaned(old(tables), final(tables), set![x as int]),
            old(tables).has_context(x as int) ==> final(tables).matches_of(x as int) == old(
                tables,
            ).matches_of(x as int),
    {
        let ghost old_t = *tables;
        let ghost rx = set![x as int];
        proof {
            lemma_attached_parent(tables, x as int);
            assert(tables.node_wf(x as int));
        }
        if tables.resources[x].context.is_some() {
            let n = tables.resources[x].context.as_ref().unwrap().matches.len();
            let mut k: usize = 0;
            while k < n
                invariant
                    tables.root_res == old_t.root_res,
                    tables.len() == old_t.len(),
                    old_t.wf(),
                    old_t.attached(x as int),
                    old_t.has_context(x as int),
                    rx == set![x as int],
                    0 <= k <= n,
                    n == old_t.matches_of(x as int).len(),
                    forall|i: int|
                        0 <= i < old_t.len() ==> #[trigger] unlink_progress(
                            &old_t,
                            tables,
                            x as int,
                            k as int,
                            i,
                        ),
                decreases n - k,
            {
                assert(unlink_progress(&old_t, tables, x as int, k as int, x as int));
                let m = tables.resources[x].context.as_ref().unwrap().matches[k];
                assert(old_t.node_wf(x as int));
                assert(old_t.match_ok(x as int, old_t.matches_of(x as int)[k as int] as int));
                let ghost before = *tables;
                if m != x {
                    assert(m as int == old_t.matches_of(x as int)[k as int] as int);
                    assert(unlink_progress(&old_t, &before, x as int, k as int, m as int));
                    assert(before.has_context(m as int));
                    let cur = &tables.resources[m].context.as_ref().unwrap().matches;
                    assert(cur@ == before.matches_of(m as int));
                    let w = without(cur, x);
                    assert(w@ == drop_in(before.matches_of(m as int), set![x as int]));
                    assert(w@ == drop_in(before.matches_of(m as int), rx));
                    match &mut tables.resources[m].context {
                        Some(ctx) => {
                            ctx.matches = w;
                        },
                        None => {},
                    }
                    assert(tables.matches_of(m as int) == drop_in(before.matches_of(m as int), rx));
                }
                proof {
                    let seen = old_t.matches_of(x as int).take(k as int + 1);
                    let prev = old_t.matches_of(x as int).take(k as int);
                    assert(prev =~= seen.drop_last());
                    assert(seen[k as int] == m);
                    assert forall|i: int| 0 <= i < old_t.len() implies #[trigger] unlink_progress(
                        &old_t,
                        tables,
                        x as int,
                        k as int + 1,
                        i,
                    ) by {
                        assert(unlink_progress(&old_t, &before, x as int, k as int, i));
                        if i == m as int {
                            assert(has_index(seen, i));
                            if i != x as int {
                                lemma_drop_in_twice(old_t.matches_of(i), rx, rx);
                                assert(rx + rx =~= rx);
                                assert(tables.resources@[i].parent == before.resources@[i].parent);
                                assert(tables.resources@[i].children == before.resources@[i].children);
                                assert(tables.has_context(i));
                                assert(same_but_matches(tables.resources@[i].context->0, before.resources@[i].context->0));
                                assert(tables.matches_of(i) == drop_in(before.matches_of(i), rx));
                                if has_index(prev, i) {
                                    assert(before.matches_of(i) == drop_in(old_t.matches_of(i), rx));
                                } else {
                                    assert(before.matches_of(i) == old_t.matches_of(i));
                                }
                                assert(tables.matches_of(i) == drop_in(old_t.matches_of(i), rx));
                            } else {
                                assert(tables.resources@[i] == before.resources@[i]);
                            }
                        } else {
                            assert(tables.resources@[i] == before.resources@[i]);
                            if has_index(seen, i) {
                                let j = choose|j: int| 0 <= j < seen.len() && seen[j] as int == i;
                                assert(j < k);
                                assert(prev[j] as int == i);
                            }
                            if has_index(prev, i) {
                                let j = choose|j: int| 0 <= j < prev.len() && prev[j] as int == i;
                                assert(seen[j] as int == i);
                            }
                        }
                    }
                }
                k = k + 1;
            }
            proof {
                assert(old_t.matches_of(x as int).take(n as int) =~= old_t.matches_of(x as int));
            }
        } else {
            proof {
                assert forall|i: int| 0 <= i < old_t.len() implies #[trigger] unlink_progress(
                    &old_t,
                    tables,
                    x as int,
                    0,
                    i,
                ) by {}
            }
        }
        let ghost mid = *tables;
        tables.resources[x].nonwild_prefix = None;
        let kids = without(&tables.resources[p].children, x);
        tables.resources[p].children = kids;
        proof {
            lemma_unlinked(&old_t, &mid, tables, x as int, p);
            assert(old_t.matches_of(x as int).take(old_t.matches_of(x as int).len() as int)
                =~= old_t.matches_of(x as int));
            assert(unlink_progress(&old_t, &mid, x as int, old_t.matches_of(x as int).len() as int, x as int));
        }
    }
}

/// Node `i` once the first `k` matches of `x` no longer list `x`.
pub open spec fn unlink_progress<H, X>(
    old: &Tables<H, X>,
    new: &Tables<H, X>,
    x: int,
    k: int,
    i: int,
) -> bool {
    &&& new.resources@[i].parent == old.resources@[i].parent
    &&& new.resources@[i].suffix == old.resources@[i].suffix
    &&& new.resources@[i].nonwild_prefix == old.resources@[i].nonwild_prefix
    &&& new.resources@[i].children == old.resources@[i].children
    &&& new.resources@[i].session_ctxs == old.resources@[i].session_ctxs
    &&& new.resources@[i].holders == old.resources@[i].holders
    &&& new.has_context(i) == old.has_context(i)
    &&& (old.has_context(i) ==> same_but_matches(
        new.resources@[i].context->0,
        old.resources@[i].context->0,
    ))
    &&& (old.has_context(i) ==> new.matches_of(i) == if i != x && old.has_context(x) && has_index(
        old.matches_of(x).take(k),
        i,
    ) {
        drop_in(old.matches_of(i), set![x])
    } else {
        old.matches_of(i)
    })
}

proof fn lemma_unlinked<H, X>(
    old: &Tables<H, X>,
    mid: &Tables<H, X>,
    new: &Tables<H, X>,
    x: int,
    pu: usize,
)
    requires
        old.wf(),
        old.attached(x),
        old.parent_of(x) == Some(pu),
        old.children_of(x).len() == 0,
        mid.root_res == old.root_res,
        mid.len() == old.len(),
        forall|i: int|
            0 <= i < old.len() ==> #[trigger] unlink_progress(
                old,
                mid,
                x,
                old.matches_of(x).len() as int,
                i,
            ),
        new.root_res == old.root_res,
        new.len() == old.len(),
        forall|i: int|
            0 <= i < old.len() && i != x && i != pu as int ==> #[trigger] new.resources@[i]
                == mid.resources@[i],
        new.resources@[x].parent == mid.resources@[x].parent,
        new.resources@[x].suffix == mid.resources@[x].suffix,
        new.resources@[x].children == mid.resources@[x].children,
        new.resources@[x].context == mid.resources@[x].context,
        new.resources@[x].session_ctxs == mid.resources@[x].session_ctxs,
        new.resources@[x].holders == mid.resources@[x].holders,
        new.resources@[x].nonwild_prefix is None,
        new.resources@[pu as int].parent == mid.resources@[pu as int].parent,
        new.resources@[pu as int].suffix == mid.resources@[pu as int].suffix,
        new.resources@[pu as int].nonwild_prefix == mid.resources@[pu as int].nonwild_prefix,
        new.resources@[pu as int].context == mid.resources@[pu as int].context,
        new.resources@[pu as int].session_ctxs == mid.resources@[pu as int].session_ctxs,
        new.resources@[pu as int].holders == mid.resources@[pu as int].holders,
        new.children_of(pu as int) == drop_in(mid.children_of(pu as int), set![x]),
    ensures
        cleaned(old, new, set![x]),
{
    let rx = set![x];
    let p = pu as int;
    lemma_attached_parent(old, x);
    assert(old.matches_of(x).take(old.matches_of(x).len() as int) =~= old.matches_of(x));
    assert(unlink_progress(old, mid, x, old.matches_of(x).len() as int, p));
    assert(unlink_progress(old, mid, x, old.matches_of(x).len() as int, x));
    // children lists: only `p` listed `x`
    assert forall|i: int| 0 <= i < old.len() implies new.children_of(i) == drop_in(
        old.children_of(i),
        rx,
    ) by {
        assert(unlink_progress(old, mid, x, old.matches_of(x).len() as int, i));
        if i != p {
            assert(old.node_wf(i));
            assert forall|k: int| 0 <= k < old.children_of(i).len() implies !rx.contains(
                #[trigger] old.children_of(i)[k] as int,
            ) by {
                assert(old.child_ok(i, old.children_of(i)[k] as int));
            }
            lemma_drop_in_none(old.children_of(i), rx);
            if i == x {
                assert(new.children_of(x) == mid.children_of(x));
            }
        }
    }
    assert forall|j: int| 0 <= j < old.len() implies new.resources@[j].parent == old.resources@[j].parent by {
        assert(unlink_progress(old, mid, x, old.matches_of(x).len() as int, j));
        if j != x && j != p {
            assert(new.resources@[j] == mid.resources@[j]);
        }
    }
    // attachment is kept by all but `x`
    assert forall|i: int| 0 <= i < old.len() implies new.attached(i) == (old.attached(i) && i
        != x) by {
        lemma_unlinked_attached(old, new, x, i);
    }
    assert forall|i: int| 0 <= i < old.len() implies #[trigger] clean_at(old, new, rx, i) by {
        assert(unlink_progress(old, mid, x, old.matches_of(x).len() as int, i));
        if i != x && i != p {
            assert(new.resources@[i] == mid.resources@[i]);
        }
        assert(new.resources@[i].parent == old.resources@[i].parent);
        assert(new.resources@[i].suffix == old.resources@[i].suffix);
        assert(new.resources@[i].session_ctxs == old.resources@[i].session_ctxs);
        assert(new.resources@[i].holders == old.resources@[i].holders);
        assert(new.has_context(i) == old.has_context(i));
        assert(new.children_of(i) == drop_in(old.children_of(i), rx));
        if i == x {
            assert(new.children_of(i).len() == 0) by {
                assert(drop_in(old.children_of(x), rx) =~= old.children_of(x));
            }
        } else {
            assert(new.resources@[i].nonwild_prefix == old.resources@[i].nonwild_prefix);
        }
        if i != x && old.attached(i) && old.has_context(i) {
            if !old.has_context(x) || !has_index(old.matches_of(x), i) {
                assert(old.node_wf(i));
                assert forall|k: int| 0 <= k < old.matches_of(i).len() implies !rx.contains(
                    #[trigger] old.matches_of(i)[k] as int,
                ) by {
                    assert(old.match_ok(i, old.matches_of(i)[k] as int));
                }
                lemma_drop_in_none(old.matches_of(i), rx);
            }
            assert(new.matches_of(i) == drop_in(old.matches_of(i), rx));
        }
        if i != x && !old.attached(i) && old.has_context(i) {
            if old.has_context(x) && has_index(old.matches_of(x), i) {
                assert(old.node_wf(x));
                let k = choose|k: int| 0 <= k < old.matches_of(x).len() && old.matches_of(x)[k] as int == i;
                assert(old.match_ok(x, old.matches_of(x)[k] as int));
            }
            assert(new.matches_of(i) == old.matches_of(i));
        }
        if old.has_context(i) {
            assert(same_but_matches(new.resources@[i].context->0, old.resources@[i].context->0));
        }
        if i == x {
            assert(rx.contains(i));
            assert(!new.attached(i));
        } else {
            assert(!rx.contains(i));
            assert(new.attached(i) == old.attached(i));
        }
    }
    // well-formedness
    assert forall|i: int| 0 <= i < new.len() implies #[trigger] new.node_wf(i) by {
        assert(old.node_wf(i));
        assert(clean_at(old, new, rx, i));
        assert forall|k: int|
            0 <= k < new.children_of(i).len() implies new.child_ok(
            i,
            #[trigger] new.children_of(i)[k] as int,
        ) by {
            let c = new.children_of(i)[k] as int;
            lemma_drop_in_index(old.children_of(i), rx, c);
            assert(has_index(new.children_of(i), c));
            let k2 = choose|k2: int| 0 <= k2 < old.children_of(i).len() && old.children_of(i)[k2] as int == c;
            assert(old.child_ok(i, old.children_of(i)[k2] as int));
            assert(clean_at(old, new, rx, c));
            assert(c != x);
        }
        assert forall|k1: int, k2: int|
            0 <= k1 < new.children_of(i).len() && 0 <= k2 < new.children_of(i).len() && k1
                != k2 implies new.suffix_of(#[trigger] new.children_of(i)[k1] as int)
            != new.suffix_of(#[trigger] new.children_of(i)[k2] as int) by {
            lemma_children_no_dups(old, i);
            lemma_drop_in_no_dups(old.children_of(i), rx);
            let c1 = new.children_of(i)[k1] as int;
            let c2 = new.children_of(i)[k2] as int;
            assert(has_index(new.children_of(i), c1));
            assert(has_index(new.children_of(i), c2));
            lemma_drop_in_index(old.children_of(i), rx, c1);
            lemma_drop_in_index(old.children_of(i), rx, c2);
            let j1 = choose|j1: int| 0 <= j1 < old.children_of(i).len() && old.children_of(i)[j1] as int == c1;
            let j2 = choose|j2: int| 0 <= j2 < old.children_of(i).len() && old.children_of(i)[j2] as int == c2;
            assert(old.children_distinct(i));
            assert(old.child_ok(i, c1) && old.child_ok(i, c2));
            assert(clean_at(old, new, rx, c1));
            assert(clean_at(old, new, rx, c2));
            assert(old.suffix_of(old.children_of(i)[j1] as int) != old.suffix_of(old.children_of(i)[j2] as int));
        }
        if new.has_context(i) && new.attached(i) {
            assert forall|k: int|
                0 <= k < new.matches_of(i).len() implies new.match_ok(
                i,
                #[trigger] new.matches_of(i)[k] as int,
            ) by {
                let j = new.matches_of(i)[k] as int;
                assert(has_index(new.matches_of(i), j));
                lemma_drop_in_index(old.matches_of(i), rx, j);
                let k2 = choose|k2: int| 0 <= k2 < old.matches_of(i).len() && old.matches_of(i)[k2] as int == j;
                assert(old.match_ok(i, old.matches_of(i)[k2] as int));
                assert(clean_at(old, new, rx, j));
                lemma_attached_in_range(old, j);
                let k3 = choose|k3: int| 0 <= k3 < old.matches_of(j).len() && old.matches_of(j)[k3] as int == i;
                assert(has_index(old.matches_of(j), i));
                lemma_drop_in_index(old.matches_of(j), rx, i);
            }
        }
    }
    assert(clean_at(old, new, rx, 0));
    assert(x != 0);
    assert(new.wf());
}

proof fn lemma_unlinked_attached<H, X>(old: &Tables<H, X>, new: &Tables<H, X>, x: int, i: int)
    requires
        old.wf(),
        0 <= x < old.len(),
        old.children_of(x).len() == 0,
        old.parent_of(x) is Some,
        new.len() == old.len(),
        forall|j: int| 0 <= j < old.len() ==> new.resources@[j].parent == old.resources@[j].parent,
        forall|j: int| 0 <= j < old.len() ==> new.children_of(j) == drop_in(old.children_of(j), set![x]),
        0 <= i < old.len(),
    ensures
        new.attached(i) == (old.attached(i) && i != x),
    decreases i,
{
    if i > 0 {
        match old.parent_of(i) {
            Some(q) => {
                if (q as int) < i {
                    lemma_unlinked_attached(old, new, x, q as int);
                    lemma_drop_in_index(old.children_of(q as int), set![x], i);
                }
            },
            None => {},
        }
    }
}

/// Removing `x` from a list that holds it once and nothing else empties it,
/// and only such a list.
proof fn lemma_drop_single(s: Seq<usize>, x: int)
    requires
        s.no_duplicates(),
        has_index(s, x),
    ensures
        (drop_in(s, set![x]).len() == 0) <==> (s.len() == 1 && s[0] as int == x),
{
    if s.len() == 1 && s[0] as int == x {
        assert(s.drop_last() =~= Seq::<usize>::empty());
        assert(drop_in(s.drop_last(), set![x]).len() == 0);
        assert(set![x].contains(s.last() as int));
    }
    let k0 = choose|k: int| 0 <= k < s.len() && s[k] as int == x;
    assert(0 <= k0 < s.len());
    if drop_in(s, set![x]).len() == 0 {
        assert forall|k: int| 0 <= k < s.len() implies s[k] as int == x by {
            lemma_drop_in_index(s, set![x], s[k] as int);
            if s[k] as int != x {
                assert(has_index(s, s[k] as int));
                let d = drop_in(s, set![x]);
                let j = choose|j: int| 0 <= j < d.len() && d[j] as int == s[k] as int;
            }
        }
        if s.len() > 1 {
            assert(s[0] == s[1]);
        }
    }
}

/// Each resource of `chain` with a routing context no longer lists, among
/// its matches, the resources unlinked before it; the resources unlinked
/// after it it may still list.
pub open spec fn chain_matches<H, X>(old: &Tables<H, X>, new: &Tables<H, X>, chain: Seq<int>) -> bool {
    forall|j: int|
        0 <= j < chain.len() && old.has_context(chain[j]) ==> #[trigger] new.matches_of(chain[j])
            == drop_in(old.matches_of(chain[j]), chain.take(j).to_set())
}

/// The resources of a chain from an attached `x` are attached, and `x` or
/// above it.
proof fn lemma_chain_below<H, X>(t: &Tables<H, X>, x: int, prev: Option<int>)
    requires
        t.wf(),
        t.attached(x),
    ensures
        forall|k: int|
            0 <= k < clean_chain(t, x, prev).len() ==> #[trigger] clean_chain(t, x, prev)[k] <= x
                && t.attached(clean_chain(t, x, prev)[k]),
    decreases x,
{
    if removable(t, x, prev) && (t.parent_of(x)->0 as int) < x {
        let p = t.parent_of(x)->0 as int;
        lemma_attached_parent(t, x);
        lemma_chain_below(t, p, Some(x));
        let rest = clean_chain(t, p, Some(x));
        assert forall|k: int| 0 <= k < clean_chain(t, x, prev).len() implies #[trigger] clean_chain(
            t,
            x,
            prev,
        )[k] <= x && t.attached(clean_chain(t, x, prev)[k]) by {
            if k > 0 {
                assert(clean_chain(t, x, prev)[k] == rest[k - 1]);
            }
        }
    }
}

/// Away from `p` and `x`, `a` and `b` agree on what `clean_chain` reads.
proof fn lemma_chain_same<H, X>(
    a: &Tables<H, X>,
    b: &Tables<H, X>,
    p: int,
    q: int,
    prev: Option<int>,
)
    requires
        a.len() == b.len(),
        0 <= q < p,
        forall|j: int|
            0 <= j < p ==> #[trigger] b.resources@[j].parent == a.resources@[j].parent
                && b.resources@[j].holders == a.resources@[j].holders && b.children_of(j)
                == a.children_of(j),
    ensures
        clean_chain(b, q, prev) == clean_chain(a, q, prev),
    decreases q,
{
    assert(b.resources@[q].parent == a.resources@[q].parent);
    if removable(a, q, prev) && (a.parent_of(q)->0 as int) < q {
        lemma_chain_same(a, b, p, a.parent_of(q)->0 as int, Some(q));
    }
}

proof fn lemma_chain_unlink<H, X>(old: &Tables<H, X>, mid: &Tables<H, X>, x: int, p: int)
    requires
        old.wf(),
        old.attached(x),
        old.parent_of(x) matches Some(pp) && pp as int == p,
        old.children_of(x).len() == 0,
        cleaned(old, mid, set![x]),
    ensures
        clean_chain(mid, p, None) == clean_chain(old, p, Some(x)),
{
    lemma_attached_parent(old, x);
    assert(clean_at(old, mid, set![x], p));
    lemma_children_no_dups(old, p);
    lemma_drop_single(old.children_of(p), x);
    assert(removable(mid, p, None) == removable(old, p, Some(x)));
    if removable(old, p, Some(x)) && (old.parent_of(p)->0 as int) < p {
        assert forall|j: int| 0 <= j < p implies #[trigger] mid.resources@[j].parent
            == old.resources@[j].parent && mid.resources@[j].holders == old.resources@[j].holders
            && mid.children_of(j) == old.children_of(j) by {
            assert(clean_at(old, mid, set![x], j));
            assert(old.node_wf(j));
            assert forall|k: int| 0 <= k < old.children_of(j).len() implies !set![x].contains(
                #[trigger] old.children_of(j)[k] as int,
            ) by {
                assert(old.child_ok(j, old.children_of(j)[k] as int));
            }
            lemma_drop_in_none(old.children_of(j), set![x]);
        }
        lemma_chain_same(old, mid, p, old.parent_of(p)->0 as int, Some(p));
    }
}

/// Unlinking `x` and then the chain `rest` above it leaves the matches of
/// each as `chain_matches` says for `[x] + rest`.
proof fn lemma_chain_matches_step<H, X>(
    old: &Tables<H, X>,
    mid: &Tables<H, X>,
    new: &Tables<H, X>,
    x: int,
    rest: Seq<int>,
)
    requires
        old.wf(),
        old.attached(x),
        old.parent_of(x) is Some,
        old.has_context(x) ==> mid.matches_of(x) == old.matches_of(x),
        cleaned(old, mid, set![x]),
        cleaned(mid, new, rest.to_set()),
        chain_matches(mid, new, rest),
        rest == clean_chain(old, old.parent_of(x)->0 as int, Some(x)),
    ensures
        chain_matches(old, new, seq![x] + rest),
{
    let p = old.parent_of(x)->0 as int;
    lemma_attached_parent(old, x);
    lemma_attached_in_range(old, x);
    lemma_chain_below(old, p, Some(x));
    let chain = seq![x] + rest;
    assert forall|j: int| 0 <= j < chain.len() && old.has_context(chain[j]) implies #[trigger] new.matches_of(
        chain[j],
    ) == drop_in(old.matches_of(chain[j]), chain.take(j).to_set()) by {
        if j == 0 {
            assert(!rest.to_set().contains(x)) by {
                if rest.to_set().contains(x) {
                    let k = choose|k: int| 0 <= k < rest.len() && rest[k] == x;
                    assert(rest[k] <= p);
                }
            }
            assert(clean_at(old, mid, set![x], x));
            assert(clean_at(mid, new, rest.to_set(), x));
            assert(chain.take(0).to_set() =~= Set::<int>::empty());
            lemma_drop_in_none(old.matches_of(x), Set::<int>::empty());
        } else {
            let y = rest[j - 1];
            assert(chain[j] == y);
            assert(y <= p && old.attached(y));
            lemma_attached_in_range(old, y);
            assert(clean_at(old, mid, set![x], y));
            assert(mid.has_context(y));
            assert(new.matches_of(y) == drop_in(mid.matches_of(y), rest.take(j - 1).to_set()));
            lemma_drop_in_twice(old.matches_of(y), set![x], rest.take(j - 1).to_set());
            assert(chain.take(j).to_set() =~= set![x] + rest.take(j - 1).to_set()) by {
                assert forall|z: int| chain.take(j).to_set().contains(z) <==> (set![x] + rest.take(
                    j - 1,
                ).to_set()).contains(z) by {
                    if chain.take(j).to_set().contains(z) {
                        let k = choose|k: int| 0 <= k < chain.take(j).len() && #[trigger] chain.take(j)[k] == z;
                        if k > 0 {
                            assert(rest.take(j - 1)[k - 1] == z);
                        }
                    }
                    if rest.take(j - 1).to_set().contains(z) {
                        let k = choose|k: int| 0 <= k < rest.take(j - 1).len() && #[trigger] rest.take(j - 1)[k] == z;
                        assert(chain.take(j)[k + 1] == z);
                    }
                    if z == x {
                        assert(chain.take(j)[0] == z);
                    }
                }
            }
        }
    }
}

impl<H, X> Resource<H, X> {
    /// Unlinks `res` if nothing outside the tree holds it and it has no
    /// children, then does the same for its parent, and so on up: the
    /// resources of `clean_chain` are unlinked.
    pub fn clean(tables: &mut Tables<H, X>, res: usize)
        requires
            old(tables).wf(),
            old(tables).attached(res as int),
        ensures
            cleaned(old(tables), final(tables), clean_chain(old(tables), res as int, None).to_set()),
            chain_matches(old(tables), final(tables), clean_chain(old(tables), res as int, None)),
        decreases res,
    {
        let ghost old_t = *tables;
        proof {
            lemma_attached_in_range(tables, res as int);
        }
        match tables.resources[res].parent {
            Some(p) => {
                if tables.resources[res].holders == 0 && tables.resources[res].children.len() == 0 {
                    proof {
                        lemma_attached_parent(tables, res as int);
                    }
                    Self::unlink(tables, res, p);
                    let ghost mid = *tables;
                    proof {
                        assert(clean_at(&old_t, &mid, set![res as int], p as int));
                    }
                    Self::clean(tables, p);
                    proof {
                        lemma_chain_unlink(&old_t, &mid, res as int, p as int);
                        let rest = clean_chain(&old_t, p as int, Some(res as int));
                        lemma_cleaned_trans(&old_t, &mid, tables, set![res as int], rest.to_set());
                        lemma_chain_matches_step(&old_t, &mid, tables, res as int, rest);
                        assert(clean_chain(&old_t, res as int, None) == seq![res as int] + rest);
                        assert((seq![res as int] + rest).to_set() =~= set![res as int] + rest.to_set()) by {
                            assert forall|y: int| (seq![res as int] + rest).to_set().contains(y) <==> (set![res as int] + rest.to_set()).contains(y) by {
                                if (seq![res as int] + rest).to_set().contains(y) {
                                    let k = choose|k: int| 0 <= k < (seq![res as int] + rest).len() && (seq![res as int] + rest)[k] == y;
                                    if k > 0 {
                                        assert(rest[k - 1] == y);
                                    }
                                }
                                if rest.to_set().contains(y) {
                                    let k = choose|k: int| 0 <= k < rest.len() && rest[k] == y;
                                    assert((seq![res as int] + rest)[k + 1] == y);
                                }
                                if y == res as int {
                                    assert((seq![res as int] + rest)[0] == y);
                                }
                            }
                        }
                    }
                    return;
                }
            },
            None => {},
        }
        proof {
            lemma_cleaned_none(tables);
            assert(clean_chain(&old_t, res as int, None) =~= Seq::<int>::empty());
            assert(chain_matches(&old_t, tables, clean_chain(&old_t, res as int, None)));
            assert(clean_chain(&old_t, res as int, None).to_set() =~= Set::<int>::empty());
        }
    }
}

/// Node `i` hangs below `res`: `res` lies on its chain of parents.
pub open spec fn below<H, X>(t: &Tables<H, X>, i: int, res: int) -> bool
    decreases i,
{
    if i == res {
        true
    } else {
        match t.parent_of(i) {
            Some(p) => (p as int) < i && below(t, p as int, res),
            None => false,
        }
    }
}

/// The nodes that closing `res` reaches: `res` and, through children lists,
/// everything attached below it.
pub open spec fn in_subtree<H, X>(t: &Tables<H, X>, i: int, res: int) -> bool {
    t.attached(i) && below(t, i, res)
}

/// Node `r` after closing: no parent, children, wild-suffix record, routing
/// context or session contexts; its suffix and holders stay.
pub open spec fn closed_node<H, X>(old: Resource<H, X>, new: Resource<H, X>) -> bool {
    &&& new.parent is None
    &&& new.children@.len() == 0
    &&& new.nonwild_prefix is None
    &&& new.context is None
    &&& new.session_ctxs@ == Map::<usize, crate::context::SessionContext<X>>::empty()
    &&& new.suffix == old.suffix
    &&& new.holders == old.holders
}

/// What `close` leaves behind.
pub open spec fn closed<H, X>(old: &Tables<H, X>, new: &Tables<H, X>, res: int) -> bool {
    &&& new.root_res == old.root_res
    &&& new.len() == old.len()
    &&& forall|i: int|
        0 <= i < old.len() ==> if in_subtree(old, i, res) {
            closed_node(old.resources@[i], #[trigger] new.resources@[i])
        } else {
            new.resources@[i] == old.resources@[i]
        }
}

proof fn lemma_below_ge<H, X>(t: &Tables<H, X>, i: int, res: int)
    requires
        below(t, i, res),
    ensures
        i >= res,
    decreases i,
{
    if i != res {
        lemma_below_ge(t, t.parent_of(i)->0 as int, res);
    }
}

/// `v` holds `x`.
fn contains_index(v: &Vec<usize>, x: usize) -> (r: bool)
    ensures
        r == has_index(v@, x as int),
{
    let mut k: usize = 0;
    while k < v.len()
        invariant
            0 <= k <= v@.len(),
            forall|j: int| 0 <= j < k ==> v@[j] != x,
        decreases v@.len() - k,
    {
        if v[k] == x {
            return true;
        }
        k = k + 1;
    }
    false
}

/// Attachment after closing: nothing becomes attached.
proof fn lemma_closed_attached<H, X>(old: &Tables<H, X>, new: &Tables<H, X>, res: int, i: int)
    requires
        old.wf(),
        closed(old, new, res),
        0 <= i < old.len(),
        new.attached(i),
    ensures
        old.attached(i),
        !in_subtree(old, i, res) || i == 0,
    decreases i,
{
    if i != 0 {
        assert(closed_node(old.resources@[i], new.resources@[i]) || new.resources@[i]
            == old.resources@[i]);
        let p = new.parent_of(i)->0 as int;
        lemma_closed_attached(old, new, res, p);
        if in_subtree(old, p, res) {
            assert(closed_node(old.resources@[p], new.resources@[p]));
        } else {
            assert(new.resources@[p] == old.resources@[p]);
            assert(new.resources@[i] == old.resources@[i]);
        }
    }
}

impl<H, X> Resource<H, X> {
    /// Takes apart the tree below `res`: `res` and every resource attached
    /// below it lose their parent, children, wild-suffix record, routing
    /// context and session contexts. Closing the root leaves only the root
    /// attached.
    pub fn close(tables: &mut Tables<H, X>, res: usize)
        requires
            old(tables).wf(),
            old(tables).attached(res as int),
        ensures
            closed(old(tables), final(tables), res as int),
            old(tables).parent_of(res as int) is None ==> final(tables).wf() && forall|i: int|
                0 < i < final(tables).len() ==> !#[trigger] final(tables).attached(i),
    {
        let ghost old_t = *tables;
        proof {
            lemma_attached_in_range(tables, res as int);
        }
        let n = tables.resources.len();
        let mut member: Vec<bool> = Vec::new();
        let mut i: usize = 0;
        while i < n
            invariant
                n == old_t.len(),
                *tables == old_t,
                old_t.wf(),
                old_t.attached(res as int),
                0 <= i <= n,
                member@.len() == i,
                forall|j: int| 0 <= j < i ==> #[trigger] member@[j] == in_subtree(&old_t, j, res as int),
            decreases n - i,
        {
            let m = if i == res {
                true
            } else if i < res {
                proof {
                    if below(&old_t, i as int, res as int) {
                        lemma_below_ge(&old_t, i as int, res as int);
                    }
                }
                false
            } else {
                match tables.resources[i].parent {
                    Some(p) => {
                        if p < i && member[p] {
                            contains_index(&tables.resources[p].children, i)
                        } else {
                            false
                        }
                    },
                    None => false,
                }
            };
            member.push(m);
            i = i + 1;
        }
        let mut i: usize = 0;
        while i < n
            invariant
                n == old_t.len(),
                tables.len() == old_t.len(),
                tables.root_res == old_t.root_res,
                0 <= i <= n,
                member@.len() == n,
                forall|j: int| 0 <= j < n ==> #[trigger] member@[j] == in_subtree(&old_t, j, res as int),
                forall|j: int|
                    0 <= j < n ==> if j < i && in_subtree(&old_t, j, res as int) {
                        closed_node(old_t.resources@[j], #[trigger] tables.resources@[j])
                    } else {
                        tables.resources@[j] == old_t.resources@[j]
                    },
            decreases n - i,
        {
            if member[i] {
                tables.resources[i].parent = None;
                tables.resources[i].children.clear();
                tables.resources[i].nonwild_prefix = None;
                tables.resources[i].context = None;
                tables.resources[i].session_ctxs.clear();
            }
            i = i + 1;
        }
        proof {
            if old_t.parent_of(res as int) is None {
                assert(res == 0) by {
                    if res != 0 {
                        lemma_attached_parent(&old_t, res as int);
                    }
                }
                assert forall|i: int| 0 < i < tables.len() implies !#[trigger] tables.attached(i) by {
                    if tables.attached(i) {
                        lemma_closed_attached(&old_t, tables, 0, i);
                        lemma_attached_in_range(&old_t, i);
                        lemma_in_subtree_root(&old_t, i);
                    }
                }
                assert forall|i: int| 0 <= i < tables.len() implies #[trigger] tables.node_wf(i) by {
                    assert(old_t.node_wf(i));
                    if !in_subtree(&old_t, i, 0) {
                        assert(tables.resources@[i] == old_t.resources@[i]);
                        assert(!old_t.attached(i)) by {
                            if old_t.attached(i) {
                                lemma_in_subtree_root(&old_t, i);
                            }
                        }
                        assert forall|k: int| 0 <= k < tables.children_of(i).len() implies tables.child_ok(
                            i,
                            #[trigger] tables.children_of(i)[k] as int,
                        ) by {
                            let c = old_t.children_of(i)[k] as int;
                            assert(old_t.child_ok(i, c));
                            assert(!old_t.attached(c));
                            assert(!in_subtree(&old_t, c, 0));
                            assert(tables.resources@[c] == old_t.resources@[c]);
                        }
                        assert forall|k1: int, k2: int|
                            0 <= k1 < tables.children_of(i).len() && 0 <= k2 < tables.children_of(i).len() && k1
                                != k2 implies tables.suffix_of(#[trigger] tables.children_of(i)[k1] as int)
                            != tables.suffix_of(#[trigger] tables.children_of(i)[k2] as int) by {
                            assert(old_t.children_distinct(i));
                            let c1 = old_t.children_of(i)[k1] as int;
                            let c2 = old_t.children_of(i)[k2] as int;
                            assert(old_t.child_ok(i, c1));
                            assert(old_t.child_ok(i, c2));
                            assert(closed_node(old_t.resources@[c1], tables.resources@[c1]) || tables.resources@[c1] == old_t.resources@[c1]);
                            assert(closed_node(old_t.resources@[c2], tables.resources@[c2]) || tables.resources@[c2] == old_t.resources@[c2]);
                        }
                        if tables.attached(i) {
                            lemma_closed_attached(&old_t, tables, 0, i);
                        }
                    } else {
                        assert(closed_node(old_t.resources@[i], tables.resources@[i]));
                    }
                }
                assert(in_subtree(&old_t, 0, 0));
            }
        }
    }
}

/// Every attached node hangs below the root.
proof fn lemma_in_subtree_root<H, X>(t: &Tables<H, X>, i: int)
    requires
        t.wf(),
        t.attached(i),
    ensures
        in_subtree(t, i, 0),
    decreases i,
{
    if i != 0 {
        lemma_attached_parent(t, i);
        lemma_in_subtree_root(t, t.parent_of(i)->0 as int);
    }
}

} // verus!
