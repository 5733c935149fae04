//! The resource arena: every resource is a node of `Tables::resources`,
//! linked to its parent and children by index. This module holds the data
//! types, the abstract reading of the arena (key of a node, lookup of a key,
//! which nodes are attached) and the well-formedness invariant with the
//! lemmas the operations rely on.

use std::collections::HashMap;
use vstd::prelude::*;
use crate::context::{ResourceContext, SessionContext};
use crate::keys::{
    at_boundary, chunk_of, chunks, is_chunk, lemma_chunk_split, lemma_chunks_append,
    lemma_chunks_single, rest_of,
};

verus! {

/// A node of the resource tree.
pub struct Resource<H, X> {
    pub parent: Option<usize>,
    pub suffix: String,
    pub nonwild_prefix: Option<(usize, String)>,
    pub children: Vec<usize>,
    pub context: Option<ResourceContext<H>>,
    pub session_ctxs: HashMap<usize, SessionContext<X>>,
    /// Number of holders outside the tree (face mappings, interests, ...).
    pub holders: usize,
}

/// The routing tables: the resource arena, whose root is `root_res`.
pub struct Tables<H, X> {
    pub root_res: usize,
    pub resources: Vec<Resource<H, X>>,
}

/// The abstract value of a stored wild-suffix record.
pub open spec fn nonwild_view(nw: Option<(usize, String)>) -> Option<(int, Seq<char>)> {
    match nw {
        Some((p, w)) => Some((p as int, w@)),
        None => None,
    }
}

/// The wild-suffix record that a child with suffix `s` of node `p` gets:
/// the nearest ancestor whose key has no `*`, and the rest of the key.
pub open spec fn child_nonwild(parent_nw: Option<(int, Seq<char>)>, p: int, s: Seq<char>) -> Option<
    (int, Seq<char>),
> {
    match parent_nw {
        None => if s.contains('*') {
            Some((p, s))
        } else {
            None
        },
        Some((a, w)) => Some((a, w + s)),
    }
}

/// `s` holds the index `i`.
pub open spec fn has_index(s: Seq<usize>, i: int) -> bool {
    exists|k: int| 0 <= k < s.len() && s[k] as int == i
}

/// Empty, or starting with a one-byte character.
pub open spec fn starts_ascii(s: Seq<char>) -> bool {
    s.len() == 0 || (s[0] as int) < 128
}

impl<H, X> Tables<H, X> {
    pub open spec fn len(&self) -> int {
        self.resources@.len() as int
    }

    pub open spec fn parent_of(&self, i: int) -> Option<usize> {
        self.resources@[i].parent
    }

    pub open spec fn suffix_of(&self, i: int) -> Seq<char> {
        self.resources@[i].suffix@
    }

    pub open spec fn children_of(&self, i: int) -> Seq<usize> {
        self.resources@[i].children@
    }

    pub open spec fn nonwild_of(&self, i: int) -> Option<(int, Seq<char>)> {
        nonwild_view(self.resources@[i].nonwild_prefix)
    }

    pub open spec fn has_context(&self, i: int) -> bool {
        self.resources@[i].context is Some
    }

    pub open spec fn matches_of(&self, i: int) -> Seq<usize> {
        self.resources@[i].context->0.matches@
    }

    /// The full key expression of node `i`: its ancestors' suffixes and its own.
    pub open spec fn expr_of(&self, i: int) -> Seq<char>
        decreases i,
    {
        if 0 <= i < self.len() {
            match self.parent_of(i) {
                Some(p) => if (p as int) < i {
                    self.expr_of(p as int) + self.suffix_of(i)
                } else {
                    seq![]
                },
                None => seq![],
            }
        } else {
            seq![]
        }
    }

    /// Node `i` hangs, through children lists, from the root.
    pub open spec fn attached(&self, i: int) -> bool
        decreases i,
    {
        if i == 0 {
            true
        } else if 0 < i < self.len() {
            match self.parent_of(i) {
                Some(p) => (p as int) < i && has_index(self.children_of(p as int), i)
                    && self.attached(p as int),
                None => false,
            }
        } else {
            false
        }
    }

    /// The child of `n` whose suffix is `c`.
    pub open spec fn child_with(&self, n: int, c: Seq<char>) -> Option<int> {
        if exists|k: int|
            0 <= k < self.children_of(n).len() && #[trigger] self.suffix_of(
                self.children_of(n)[k] as int,
            ) == c {
            let k = choose|k: int|
                0 <= k < self.children_of(n).len() && #[trigger] self.suffix_of(
                    self.children_of(n)[k] as int,
                ) == c;
            Some(self.children_of(n)[k] as int)
        } else {
            None
        }
    }

    /// The node reached from `n` by following the chunks `cs`.
    pub open spec fn lookup(&self, n: int, cs: Seq<Seq<char>>) -> Option<int>
        decreases cs.len(),
    {
        if cs.len() == 0 {
            Some(n)
        } else {
            match self.child_with(n, cs[0]) {
                Some(m) => self.lookup(m, cs.drop_first()),
                None => None,
            }
        }
    }

    /// The resource that the key expression `key` names, if there is one.
    pub open spec fn find(&self, key: Seq<char>) -> Option<int> {
        self.lookup(0, chunks(key))
    }

    /// What a child `c` of `i` satisfies.
    pub open spec fn child_ok(&self, i: int, c: int) -> bool {
        &&& i < c < self.len()
        &&& (self.parent_of(c) matches Some(q) && q as int == i)
        &&& is_chunk(self.suffix_of(c))
        &&& (self.suffix_of(c)[0] as int) < 128
        &&& (self.parent_of(i) is Some ==> self.suffix_of(c)[0] == '/')
        &&& self.nonwild_of(c) == child_nonwild(self.nonwild_of(i), i, self.suffix_of(c))
    }

    /// What a match `j` of an attached resource `i` satisfies.
    pub open spec fn match_ok(&self, i: int, j: int) -> bool {
        &&& 0 <= j < self.len()
        &&& self.attached(j)
        &&& self.has_context(j)
        &&& has_index(self.matches_of(j), i)
    }

    pub open spec fn children_distinct(&self, i: int) -> bool {
        forall|k1: int, k2: int|
            0 <= k1 < self.children_of(i).len() && 0 <= k2 < self.children_of(i).len() && k1
                != k2 ==> self.suffix_of(#[trigger] self.children_of(i)[k1] as int)
                != self.suffix_of(#[trigger] self.children_of(i)[k2] as int)
    }

    pub open spec fn matches_ok(&self, i: int) -> bool {
        (self.has_context(i) && self.attached(i)) ==> forall|k: int|
            0 <= k < self.matches_of(i).len() ==> self.match_ok(
                i,
                #[trigger] self.matches_of(i)[k] as int,
            )
    }

    pub open spec fn node_wf(&self, i: int) -> bool {
        &&& (self.parent_of(i) matches Some(p) ==> (p as int) < i)
        &&& forall|k: int|
            0 <= k < self.children_of(i).len() ==> self.child_ok(
                i,
                #[trigger] self.children_of(i)[k] as int,
            )
        &&& self.children_distinct(i)
        &&& self.matches_ok(i)
    }

    /// Well-formedness of the arena.
    pub open spec fn wf(&self) -> bool {
        &&& self.root_res == 0
        &&& self.len() >= 1
        &&& self.parent_of(0) is None
        &&& self.nonwild_of(0) is None
        &&& forall|i: int| 0 <= i < self.len() ==> #[trigger] self.node_wf(i)
    }
}

/// The child of `n` at position `k` is what `child_with` gives for its suffix.
pub proof fn lemma_child_with_is<H, X>(t: &Tables<H, X>, n: int, k: int)
    requires
        t.wf(),
        0 <= n < t.len(),
        0 <= k < t.children_of(n).len(),
    ensures
        t.child_with(n, t.suffix_of(t.children_of(n)[k] as int)) == Some(
            t.children_of(n)[k] as int,
        ),
{
    assert(t.node_wf(n));
    let c = t.suffix_of(t.children_of(n)[k] as int);
    assert(exists|k2: int|
        0 <= k2 < t.children_of(n).len() && #[trigger] t.suffix_of(t.children_of(n)[k2] as int)
            == c);
    let k2 = choose|k2: int|
        0 <= k2 < t.children_of(n).len() && #[trigger] t.suffix_of(t.children_of(n)[k2] as int)
            == c;
    assert(k2 == k);
}

/// What a child found by `child_with` is.
pub proof fn lemma_child_with_some<H, X>(t: &Tables<H, X>, n: int, c: Seq<char>)
    requires
        t.wf(),
        0 <= n < t.len(),
        t.child_with(n, c) is Some,
    ensures
        ({
            let m = t.child_with(n, c)->0;
            &&& has_index(t.children_of(n), m)
            &&& t.child_ok(n, m)
            &&& t.suffix_of(m) == c
            &&& (t.attached(n) ==> t.attached(m))
            &&& t.expr_of(m) == t.expr_of(n) + c
        }),
{
    assert(t.node_wf(n));
    let k = choose|k: int|
        0 <= k < t.children_of(n).len() && #[trigger] t.suffix_of(t.children_of(n)[k] as int)
            == c;
    let m = t.children_of(n)[k] as int;
    assert(t.child_ok(n, m));
}

/// Following `a + b` is following `a`, then `b`.
pub proof fn lemma_lookup_append<H, X>(
    t: &Tables<H, X>,
    n: int,
    a: Seq<Seq<char>>,
    b: Seq<Seq<char>>,
)
    ensures
        t.lookup(n, a + b) == match t.lookup(n, a) {
            Some(m) => t.lookup(m, b),
            None => None,
        },
    decreases a.len(),
{
    if a.len() == 0 {
        assert(a + b =~= b);
    } else {
        assert((a + b)[0] == a[0]);
        assert((a + b).drop_first() =~= a.drop_first() + b);
        match t.child_with(n, a[0]) {
            Some(m) => {
                lemma_lookup_append(t, m, a.drop_first(), b);
            },
            None => {},
        }
    }
}

/// The parent of an attached node other than the root is attached.
pub proof fn lemma_attached_parent<H, X>(t: &Tables<H, X>, i: int)
    requires
        t.wf(),
        t.attached(i),
        i != 0,
    ensures
        0 < i < t.len(),
        t.parent_of(i) is Some,
        ({
            let p = t.parent_of(i)->0 as int;
            &&& p < i
            &&& t.attached(p)
            &&& has_index(t.children_of(p), i)
            &&& t.child_ok(p, i)
            &&& t.expr_of(i) == t.expr_of(p) + t.suffix_of(i)
        }),
{
    assert(0 < i < t.len());
    let p = t.parent_of(i)->0 as int;
    assert(p < i && has_index(t.children_of(p), i) && t.attached(p));
    assert(t.node_wf(p));
    let k = choose|k: int| 0 <= k < t.children_of(p).len() && t.children_of(p)[k] as int == i;
    assert(t.child_ok(p, t.children_of(p)[k] as int));
    assert(t.child_ok(p, i));
}

/// An attached node is inside the arena.
pub proof fn lemma_attached_in_range<H, X>(t: &Tables<H, X>, i: int)
    requires
        t.wf(),
        t.attached(i),
    ensures
        0 <= i < t.len(),
{
    if i != 0 {
        lemma_attached_parent(t, i);
    }
}

/// The key of an attached node other than the root is non-empty and starts
/// with a one-byte character.
pub proof fn lemma_expr_ascii<H, X>(t: &Tables<H, X>, i: int)
    requires
        t.wf(),
        t.attached(i),
        i != 0,
    ensures
        t.expr_of(i).len() > 0,
        (t.expr_of(i)[0] as int) < 128,
    decreases i,
{
    lemma_attached_parent(t, i);
    let p = t.parent_of(i)->0 as int;
    if p != 0 {
        lemma_expr_ascii(t, p);
    }
}

/// An attached node is what its own key names.
pub proof fn lemma_find_expr<H, X>(t: &Tables<H, X>, i: int)
    requires
        t.wf(),
        t.attached(i),
    ensures
        t.find(t.expr_of(i)) == Some(i),
    decreases i,
{
    if i == 0 {
        assert(t.expr_of(0) =~= Seq::<char>::empty());
        assert(chunks(Seq::<char>::empty()) =~= Seq::<Seq<char>>::empty());
    } else {
        lemma_attached_parent(t, i);
        let p = t.parent_of(i)->0 as int;
        let s = t.suffix_of(i);
        let k = choose|k: int| 0 <= k < t.children_of(p).len() && t.children_of(p)[k] as int == i;
        lemma_child_with_is(t, p, k);
        lemma_find_expr(t, p);
        lemma_chunks_single(s);
        assert(t.suffix_of(t.children_of(p)[k] as int) == s);
        assert(t.child_with(p, s) == Some(i));
        assert(seq![s].drop_first() =~= Seq::<Seq<char>>::empty());
        assert(seq![s][0] == s);
        assert(t.lookup(i, Seq::<Seq<char>>::empty()) == Some(i));
        assert(t.lookup(p, seq![s]) == Some(i));
        if p == 0 {
            assert(t.expr_of(0) =~= Seq::<char>::empty());
            assert(t.expr_of(i) =~= s);
        } else {
            lemma_attached_parent(t, p);
            lemma_chunks_append(t.expr_of(p), s);
            lemma_lookup_append(t, 0, chunks(t.expr_of(p)), seq![s]);
        }
    }
}

/// Following chunks from an attached node stays among attached nodes and
/// spells out the chunks.
pub proof fn lemma_lookup_expr<H, X>(t: &Tables<H, X>, n: int, cs: Seq<Seq<char>>)
    requires
        t.wf(),
        t.attached(n),
        t.lookup(n, cs) is Some,
    ensures
        t.attached(t.lookup(n, cs)->0),
        t.expr_of(t.lookup(n, cs)->0) == t.expr_of(n) + cs.flatten(),
    decreases cs.len(),
{
    lemma_attached_in_range(t, n);
    if cs.len() == 0 {
        assert(t.expr_of(n) + cs.flatten() =~= t.expr_of(n));
    } else {
        lemma_child_with_some(t, n, cs[0]);
        let m = t.child_with(n, cs[0])->0;
        lemma_lookup_expr(t, m, cs.drop_first());
        assert(t.expr_of(n) + cs.flatten() =~= t.expr_of(n) + cs[0] + cs.drop_first().flatten());
    }
}

/// What a key names is an attached resource whose key is that key.
pub proof fn lemma_find_sound<H, X>(t: &Tables<H, X>, key: Seq<char>)
    requires
        t.wf(),
        t.find(key) is Some,
    ensures
        0 <= t.find(key)->0 < t.len(),
        t.attached(t.find(key)->0),
        t.expr_of(t.find(key)->0) == key,
{
    lemma_lookup_expr(t, 0, chunks(key));
    crate::keys::lemma_chunks_flatten(key);
    assert(t.expr_of(0) + key =~= key);
    lemma_attached_in_range(t, t.find(key)->0);
}

/// Splitting at a chunk boundary after an attached node: what `s` names from
/// `n` is what `expr(n) + s` names from the root.
pub proof fn lemma_find_from<H, X>(t: &Tables<H, X>, n: int, s: Seq<char>)
    requires
        t.wf(),
        t.attached(n),
        at_boundary(s) || n == 0,
    ensures
        t.find(t.expr_of(n) + s) == t.lookup(n, chunks(s)),
{
    lemma_find_expr(t, n);
    if n == 0 {
        assert(t.expr_of(0) + s =~= s);
        assert(t.expr_of(0) =~= Seq::<char>::empty());
        assert(chunks(Seq::<char>::empty()) =~= Seq::<Seq<char>>::empty());
        assert(Seq::<Seq<char>>::empty() + chunks(s) =~= chunks(s));
        lemma_lookup_append(t, 0, Seq::<Seq<char>>::empty(), chunks(s));
    } else {
        lemma_chunks_append(t.expr_of(n), s);
        lemma_lookup_append(t, 0, chunks(t.expr_of(n)), chunks(s));
    }
}

/// One step of a lookup: a non-empty suffix names, from `n`, what its rest
/// names from the child of `n` holding its first chunk.
pub proof fn lemma_lookup_step<H, X>(t: &Tables<H, X>, n: int, s: Seq<char>)
    requires
        s.len() > 0,
    ensures
        t.lookup(n, chunks(s)) == match t.child_with(n, chunk_of(s)) {
            Some(m) => t.lookup(m, chunks(rest_of(s))),
            None => None,
        },
{
    lemma_chunk_split(s);
    assert(chunks(s)[0] == chunk_of(s));
    assert(chunks(s).drop_first() =~= chunks(rest_of(s)));
}

impl<H, X> Tables<H, X> {
    /// Node `i` of `self` is still there in `new`, with the same place in the
    /// tree, key, records and holders; its children list only grew, by nodes
    /// that are new in `new`.
    pub open spec fn kept_in(&self, new: &Tables<H, X>, i: int) -> bool {
        &&& new.parent_of(i) == self.parent_of(i)
        &&& new.suffix_of(i) == self.suffix_of(i)
        &&& new.nonwild_of(i) == self.nonwild_of(i)
        &&& new.resources@[i].session_ctxs@ == self.resources@[i].session_ctxs@
        &&& new.resources@[i].holders == self.resources@[i].holders
        &&& self.children_of(i).len() <= new.children_of(i).len()
        &&& forall|k: int|
            0 <= k < self.children_of(i).len() ==> #[trigger] new.children_of(i)[k]
                == self.children_of(i)[k]
        &&& forall|k: int|
            self.children_of(i).len() <= k < new.children_of(i).len() ==> #[trigger] new.children_of(
                i,
            )[k] >= self.len()
    }

    /// `new` is `self` with nodes added below existing ones.
    pub open spec fn grows_into(&self, new: &Tables<H, X>) -> bool {
        &&& new.len() >= self.len()
        &&& new.root_res == self.root_res
        &&& forall|i: int| 0 <= i < self.len() ==> #[trigger] self.kept_in(new, i)
    }
}

pub proof fn lemma_grows_trans<H, X>(a: &Tables<H, X>, b: &Tables<H, X>, c: &Tables<H, X>)
    requires
        a.grows_into(b),
        b.grows_into(c),
    ensures
        a.grows_into(c),
{
    assert forall|i: int| 0 <= i < a.len() implies #[trigger] a.kept_in(c, i) by {
        assert(a.kept_in(b, i));
        assert(b.kept_in(c, i));
        assert forall|k: int| a.children_of(i).len() <= k < c.children_of(i).len() implies #[trigger] c.children_of(
            i,
        )[k] >= a.len() by {
            if k < b.children_of(i).len() {
                assert(c.children_of(i)[k] == b.children_of(i)[k]);
            }
        }
    }
}

pub proof fn lemma_grows_refl<H, X>(a: &Tables<H, X>)
    ensures
        a.grows_into(a),
{
    assert forall|i: int| 0 <= i < a.len() implies #[trigger] a.kept_in(a, i) by {}
}

/// Growing keeps which old nodes are attached, and their keys.
pub proof fn lemma_grows_attached<H, X>(old: &Tables<H, X>, new: &Tables<H, X>, i: int)
    requires
        old.grows_into(new),
        0 <= i < old.len(),
    ensures
        new.attached(i) == old.attached(i),
        new.expr_of(i) == old.expr_of(i),
    decreases i,
{
    assert(old.kept_in(new, i));
    if i > 0 {
        match old.parent_of(i) {
            Some(p) => {
                if (p as int) < i {
                    lemma_grows_attached(old, new, p as int);
                    assert(old.kept_in(new, p as int));
                    if has_index(new.children_of(p as int), i) {
                        let k = choose|k: int|
                            0 <= k < new.children_of(p as int).len() && new.children_of(
                                p as int,
                            )[k] as int == i;
                        if k >= old.children_of(p as int).len() {
                            assert(new.children_of(p as int)[k] >= old.len());
                        }
                        assert(has_index(old.children_of(p as int), i));
                    }
                    if has_index(old.children_of(p as int), i) {
                        let k = choose|k: int|
                            0 <= k < old.children_of(p as int).len() && old.children_of(
                                p as int,
                            )[k] as int == i;
                        assert(new.children_of(p as int)[k] == old.children_of(p as int)[k]);
                        assert(has_index(new.children_of(p as int), i));
                    }
                }
            },
            None => {},
        }
    }
}

/// Growing keeps what old chunks already named.
pub proof fn lemma_grows_lookup<H, X>(
    old: &Tables<H, X>,
    new: &Tables<H, X>,
    n: int,
    cs: Seq<Seq<char>>,
)
    requires
        old.wf(),
        new.wf(),
        old.grows_into(new),
        0 <= n < old.len(),
        old.lookup(n, cs) is Some,
    ensures
        new.lookup(n, cs) == old.lookup(n, cs),
    decreases cs.len(),
{
    if cs.len() > 0 {
        lemma_child_with_some(old, n, cs[0]);
        let m = old.child_with(n, cs[0])->0;
        let k = choose|k: int|
            0 <= k < old.children_of(n).len() && #[trigger] old.suffix_of(
                old.children_of(n)[k] as int,
            ) == cs[0];
        assert(old.node_wf(n));
        assert(old.child_ok(n, old.children_of(n)[k] as int));
        assert(old.kept_in(new, n));
        assert(new.children_of(n)[k] == old.children_of(n)[k]);
        assert(old.kept_in(new, m));
        lemma_child_with_is(new, n, k);
        lemma_grows_lookup(old, new, m, cs.drop_first());
    }
}

/// Adding a node `n` as a new child of an attached node `from`.
pub proof fn lemma_add_child<H, X>(
    old: &Tables<H, X>,
    new: &Tables<H, X>,
    from: int,
    chunk: Seq<char>,
    n: usize,
)
    requires
        n as int == old.len(),
        old.wf(),
        old.attached(from),
        new.len() == old.len() + 1,
        new.root_res == old.root_res,
        forall|i: int|
            0 <= i < old.len() && i != from ==> #[trigger] new.resources@[i] == old.resources@[i],
        new.parent_of(from) == old.parent_of(from),
        new.suffix_of(from) == old.suffix_of(from),
        new.resources@[from].nonwild_prefix == old.resources@[from].nonwild_prefix,
        new.resources@[from].context == old.resources@[from].context,
        new.resources@[from].session_ctxs == old.resources@[from].session_ctxs,
        new.resources@[from].holders == old.resources@[from].holders,
        new.children_of(from) == old.children_of(from).push(n),
        new.parent_of(old.len()) == Some(from as usize),
        new.suffix_of(old.len()) == chunk,
        new.nonwild_of(old.len()) == child_nonwild(old.nonwild_of(from), from, chunk),
        new.children_of(old.len()).len() == 0,
        !new.has_context(old.len()),
        new.resources@[old.len()].session_ctxs@ == Map::<usize, SessionContext<X>>::empty(),
        new.resources@[old.len()].holders == 0,
        is_chunk(chunk),
        (chunk[0] as int) < 128,
        old.parent_of(from) is Some ==> chunk[0] == '/',
        old.child_with(from, chunk) is None,
    ensures
        new.wf(),
        old.grows_into(new),
        new.attached(old.len()),
        new.expr_of(old.len()) == old.expr_of(from) + chunk,
        new.child_with(from, chunk) == Some(old.len()),
{
    lemma_attached_in_range(old, from);
    assert forall|i: int| 0 <= i < old.len() implies #[trigger] old.kept_in(new, i) by {
        if i != from {
            assert(new.resources@[i] == old.resources@[i]);
        }
    }
    assert(old.grows_into(new));
    assert forall|i: int| 0 <= i < old.len() implies new.attached(i) == old.attached(i)
        && new.expr_of(i) == old.expr_of(i) by {
        lemma_grows_attached(old, new, i);
    }
    assert(has_index(new.children_of(from), n as int)) by {
        assert(new.children_of(from)[old.children_of(from).len() as int] == n);
    }
    assert(new.attached(n as int));
    assert forall|i: int| 0 <= i < new.len() implies #[trigger] new.node_wf(i) by {
        if i == n as int {
            assert(new.children_distinct(i));
        } else {
            assert(old.node_wf(i));
            assert forall|k: int|
                0 <= k < new.children_of(i).len() implies new.child_ok(
                i,
                #[trigger] new.children_of(i)[k] as int,
            ) by {
                if i == from && k == old.children_of(from).len() {
                } else {
                    let c = new.children_of(i)[k] as int;
                    assert(new.children_of(i)[k] == old.children_of(i)[k]);
                    assert(old.child_ok(i, c));
                    if c != from {
                        assert(new.resources@[c] == old.resources@[c]);
                    }
                }
            }
            assert forall|k1: int, k2: int|
                0 <= k1 < new.children_of(i).len() && 0 <= k2 < new.children_of(i).len() && k1
                    != k2 implies new.suffix_of(#[trigger] new.children_of(i)[k1] as int)
                != new.suffix_of(#[trigger] new.children_of(i)[k2] as int) by {
                let ol = old.children_of(i).len();
                if k1 < ol {
                    let c1 = old.children_of(i)[k1] as int;
                    assert(old.child_ok(i, c1));
                    assert(old.kept_in(new, c1));
                }
                if k2 < ol {
                    let c2 = old.children_of(i)[k2] as int;
                    assert(old.child_ok(i, c2));
                    assert(old.kept_in(new, c2));
                }
                if i == from && k1 == ol {
                    assert(old.suffix_of(old.children_of(i)[k2] as int) != chunk);
                } else if i == from && k2 == ol {
                    assert(old.suffix_of(old.children_of(i)[k1] as int) != chunk);
                } else {
                    assert(old.children_distinct(i));
                }
            }
            assert(new.children_distinct(i));
            if new.has_context(i) && new.attached(i) {
                assert forall|k: int|
                    0 <= k < new.matches_of(i).len() implies new.match_ok(
                    i,
                    #[trigger] new.matches_of(i)[k] as int,
                ) by {
                    let j = new.matches_of(i)[k] as int;
                    assert(new.matches_of(i) == old.matches_of(i));
                    assert(old.match_ok(i, j));
                    if j != from {
                        assert(new.resources@[j] == old.resources@[j]);
                    }
                }
            }
        }
    }
    lemma_child_with_is(new, from, old.children_of(from).len() as int);
}

/// Giving a context to a node that had none.
pub proof fn lemma_set_context<H, X>(old: &Tables<H, X>, new: &Tables<H, X>, r: int)
    requires
        old.wf(),
        0 <= r < old.len(),
        !old.has_context(r),
        new.len() == old.len(),
        new.root_res == old.root_res,
        forall|i: int|
            0 <= i < old.len() && i != r ==> #[trigger] new.resources@[i] == old.resources@[i],
        new.parent_of(r) == old.parent_of(r),
        new.suffix_of(r) == old.suffix_of(r),
        new.resources@[r].nonwild_prefix == old.resources@[r].nonwild_prefix,
        new.resources@[r].children == old.resources@[r].children,
        new.resources@[r].session_ctxs == old.resources@[r].session_ctxs,
        new.resources@[r].holders == old.resources@[r].holders,
        new.has_context(r),
        new.matches_of(r).len() == 0,
    ensures
        new.wf(),
        old.grows_into(new),
{
    assert forall|i: int| 0 <= i < old.len() implies #[trigger] old.kept_in(new, i) by {
        if i != r {
            assert(new.resources@[i] == old.resources@[i]);
        }
    }
    assert forall|i: int| 0 <= i < old.len() implies new.attached(i) == old.attached(i) by {
        lemma_grows_attached(old, new, i);
    }
    assert forall|i: int| 0 <= i < new.len() implies #[trigger] new.node_wf(i) by {
        assert(old.node_wf(i));
        assert forall|k: int|
            0 <= k < new.children_of(i).len() implies new.child_ok(
            i,
            #[trigger] new.children_of(i)[k] as int,
        ) by {
            let c = new.children_of(i)[k] as int;
            assert(old.child_ok(i, c));
            if c != r {
                assert(new.resources@[c] == old.resources@[c]);
            }
            if i != r {
                assert(new.resources@[i] == old.resources@[i]);
            }
        }
        assert forall|k1: int, k2: int|
            0 <= k1 < new.children_of(i).len() && 0 <= k2 < new.children_of(i).len() && k1
                != k2 implies new.suffix_of(#[trigger] new.children_of(i)[k1] as int)
            != new.suffix_of(#[trigger] new.children_of(i)[k2] as int) by {
            assert(old.children_distinct(i));
            assert(old.child_ok(i, old.children_of(i)[k1] as int));
            assert(old.child_ok(i, old.children_of(i)[k2] as int));
            assert(old.kept_in(new, old.children_of(i)[k1] as int));
            assert(old.kept_in(new, old.children_of(i)[k2] as int));
        }
        if i != r && new.has_context(i) && new.attached(i) {
            assert(new.resources@[i] == old.resources@[i]);
            assert forall|k: int|
                0 <= k < new.matches_of(i).len() implies new.match_ok(
                i,
                #[trigger] new.matches_of(i)[k] as int,
            ) by {
                let j = new.matches_of(i)[k] as int;
                assert(old.matches_of(i)[k] as int == j);
                assert(old.match_ok(i, j));
                if j != r {
                    assert(new.resources@[j] == old.resources@[j]);
                }
            }
        }
    }
}

/// What the wild-suffix record of an attached resource says: `None` when its
/// key has no `*`; otherwise the nearest ancestor whose key has no `*`, and
/// the rest of the key, whose first chunk holds a `*`.
pub open spec fn nonwild_shape<H, X>(t: &Tables<H, X>, i: int) -> bool {
    match t.nonwild_of(i) {
        None => !t.expr_of(i).contains('*'),
        Some((p, w)) => {
            &&& 0 <= p < i
            &&& t.attached(p)
            &&& t.expr_of(p) + w == t.expr_of(i)
            &&& !t.expr_of(p).contains('*')
            &&& w.len() > 0
            &&& chunk_of(w).contains('*')
            &&& (p == 0 || at_boundary(w))
        },
    }
}

/// The first chunk of `a + b` is that of `a` when `b` starts at a boundary.
pub proof fn lemma_chunk_of_append(a: Seq<char>, b: Seq<char>)
    requires
        a.len() > 0,
        at_boundary(b),
    ensures
        chunk_of(a + b) == chunk_of(a),
{
    lemma_chunks_append(a, b);
    lemma_chunk_split(a);
    lemma_chunk_split(a + b);
    assert(chunks(a)[0] == chunk_of(a));
    assert((chunks(a) + chunks(b))[0] == chunks(a)[0]);
    assert(chunks(a + b)[0] == chunk_of(a + b));
}

pub proof fn lemma_nonwild_shape<H, X>(t: &Tables<H, X>, i: int)
    requires
        t.wf(),
        t.attached(i),
    ensures
        nonwild_shape(t, i),
    decreases i,
{
    if i == 0 {
        assert(t.expr_of(0) =~= Seq::<char>::empty());
    } else {
        lemma_attached_parent(t, i);
        let q = t.parent_of(i)->0 as int;
        let s = t.suffix_of(i);
        lemma_nonwild_shape(t, q);
        lemma_chunks_single(s);
        assert(t.expr_of(i) == t.expr_of(q) + s);
        match t.nonwild_of(q) {
            None => {
                if s.contains('*') {
                    if q != 0 {
                        lemma_attached_parent(t, q);
                    }
                } else {
                    assert forall|j: int| 0 <= j < t.expr_of(i).len() implies t.expr_of(i)[j]
                        != '*' by {
                        if j < t.expr_of(q).len() {
                            assert(t.expr_of(i)[j] == t.expr_of(q)[j]);
                        } else {
                            assert(t.expr_of(i)[j] == s[j - t.expr_of(q).len()]);
                        }
                    }
                }
            },
            Some((a, w)) => {
                assert(q != 0);
                lemma_attached_parent(t, q);
                assert(s[0] == '/');
                lemma_chunk_of_append(w, s);
                assert(t.expr_of(a) + (w + s) =~= t.expr_of(q) + s);
                if a != 0 {
                    assert((w + s)[0] == w[0]);
                }
            },
        }
    }
}

/// `a` and `b` agree on everything the tree structure reads: parents,
/// suffixes, wild-suffix records, children and routing contexts.
pub open spec fn same_shape<H, X>(a: &Tables<H, X>, b: &Tables<H, X>) -> bool {
    &&& a.root_res == b.root_res
    &&& a.len() == b.len()
    &&& forall|i: int|
        0 <= i < a.len() ==> {
            &&& #[trigger] b.resources@[i].parent == a.resources@[i].parent
            &&& b.resources@[i].suffix == a.resources@[i].suffix
            &&& b.resources@[i].nonwild_prefix == a.resources@[i].nonwild_prefix
            &&& b.resources@[i].children == a.resources@[i].children
            &&& b.resources@[i].context == a.resources@[i].context
        }
}

/// Tables of the same shape agree on attachment, keys and lookups.
pub proof fn lemma_same_shape<H, X>(a: &Tables<H, X>, b: &Tables<H, X>)
    requires
        same_shape(a, b),
    ensures
        a.wf() ==> b.wf(),
        forall|i: int| 0 <= i < a.len() ==> b.attached(i) == a.attached(i),
        forall|i: int| 0 <= i < a.len() ==> b.expr_of(i) == a.expr_of(i),
        a.wf() ==> forall|key: Seq<char>| #[trigger] b.find(key) == a.find(key),
{
    assert forall|i: int| 0 <= i < a.len() implies b.attached(i) == a.attached(i) by {
        lemma_same_shape_attached(a, b, i);
    }
    assert forall|i: int| 0 <= i < a.len() implies b.expr_of(i) == a.expr_of(i) by {
        lemma_same_shape_attached(a, b, i);
    }
    if a.wf() {
        assert forall|i: int| 0 <= i < b.len() implies #[trigger] b.node_wf(i) by {
            assert(a.node_wf(i));
            assert(b.resources@[i].parent == a.resources@[i].parent);
            assert forall|k: int|
                0 <= k < b.children_of(i).len() implies b.child_ok(
                i,
                #[trigger] b.children_of(i)[k] as int,
            ) by {
                assert(a.child_ok(i, a.children_of(i)[k] as int));
                assert(b.resources@[a.children_of(i)[k] as int].parent == a.resources@[a.children_of(
                    i,
                )[k] as int].parent);
            }
            assert forall|k1: int, k2: int|
                0 <= k1 < b.children_of(i).len() && 0 <= k2 < b.children_of(i).len() && k1
                    != k2 implies b.suffix_of(#[trigger] b.children_of(i)[k1] as int)
                != b.suffix_of(#[trigger] b.children_of(i)[k2] as int) by {
                assert(a.children_distinct(i));
                assert(a.child_ok(i, a.children_of(i)[k1] as int));
                assert(a.child_ok(i, a.children_of(i)[k2] as int));
                assert(b.resources@[a.children_of(i)[k1] as int].parent == a.resources@[a.children_of(
                    i,
                )[k1] as int].parent);
                assert(b.resources@[a.children_of(i)[k2] as int].parent == a.resources@[a.children_of(
                    i,
                )[k2] as int].parent);
            }
            if b.has_context(i) && b.attached(i) {
                assert forall|k: int|
                    0 <= k < b.matches_of(i).len() implies b.match_ok(
                    i,
                    #[trigger] b.matches_of(i)[k] as int,
                ) by {
                    assert(a.matches_of(i)[k] == b.matches_of(i)[k]);
                    assert(a.match_ok(i, a.matches_of(i)[k] as int));
                    let j = a.matches_of(i)[k] as int;
                    assert(b.resources@[j].parent == a.resources@[j].parent);
                }
            }
        }
        assert(b.resources@[0].parent == a.resources@[0].parent);
        assert forall|key: Seq<char>| #[trigger] b.find(key) == a.find(key) by {
            lemma_same_shape_lookup(a, b, 0, chunks(key));
        }
    }
}

proof fn lemma_same_shape_attached<H, X>(a: &Tables<H, X>, b: &Tables<H, X>, i: int)
    requires
        same_shape(a, b),
        0 <= i < a.len(),
    ensures
        b.attached(i) == a.attached(i),
        b.expr_of(i) == a.expr_of(i),
    decreases i,
{
    assert(b.resources@[i].parent == a.resources@[i].parent);
    match a.parent_of(i) {
        Some(p) => {
            if (p as int) < i {
                lemma_same_shape_attached(a, b, p as int);
                assert(b.resources@[p as int].parent == a.resources@[p as int].parent);
            }
        },
        None => {},
    }
}

proof fn lemma_same_shape_lookup<H, X>(
    a: &Tables<H, X>,
    b: &Tables<H, X>,
    n: int,
    cs: Seq<Seq<char>>,
)
    requires
        same_shape(a, b),
        a.wf(),
        b.wf(),
        0 <= n < a.len(),
    ensures
        b.lookup(n, cs) == a.lookup(n, cs),
    decreases cs.len(),
{
    if cs.len() > 0 {
        assert(b.resources@[n].parent == a.resources@[n].parent);
        if a.child_with(n, cs[0]) is Some {
            lemma_child_with_some(a, n, cs[0]);
            let k = choose|k: int|
                0 <= k < a.children_of(n).len() && #[trigger] a.suffix_of(
                    a.children_of(n)[k] as int,
                ) == cs[0];
            let m = a.children_of(n)[k] as int;
            assert(a.node_wf(n));
            assert(a.child_ok(n, m));
            assert(b.resources@[m].parent == a.resources@[m].parent);
            lemma_child_with_is(b, n, k);
            lemma_child_with_is(a, n, k);
            lemma_same_shape_lookup(a, b, m, cs.drop_first());
        } else if b.child_with(n, cs[0]) is Some {
            lemma_child_with_some(b, n, cs[0]);
            let k = choose|k: int|
                0 <= k < b.children_of(n).len() && #[trigger] b.suffix_of(
                    b.children_of(n)[k] as int,
                ) == cs[0];
            let m = b.children_of(n)[k] as int;
            assert(b.node_wf(n));
            assert(b.child_ok(n, m));
            assert(b.resources@[m].parent == a.resources@[m].parent);
            lemma_child_with_is(a, n, k);
        }
    }
}

} // verus!
