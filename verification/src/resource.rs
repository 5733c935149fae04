//! Creating, naming and finding resources.

use std::collections::HashMap;
use vstd::prelude::*;
use crate::context::ResourceContext;
use crate::keys::{contains_char, lemma_chunk_split, split_chunk};
use crate::tree::{
    child_nonwild, lemma_add_child, lemma_attached_in_range, lemma_attached_parent,
    lemma_child_with_is, lemma_child_with_some, lemma_expr_ascii, lemma_find_expr,
    lemma_find_from, lemma_grows_refl, lemma_grows_trans,
    lemma_lookup_step, lemma_nonwild_shape, lemma_set_context, nonwild_shape, nonwild_view,
    starts_ascii, Resource, Tables,
};

verus! {

/// `r` read as an optional integer index.
pub open spec fn opt_index(r: Option<usize>) -> Option<int> {
    match r {
        Some(i) => Some(i as int),
        None => None,
    }
}

/// A root resource with nothing on it: no parent, empty suffix, no
/// wild-suffix record, children, routing context, session contexts or
/// holders.
pub open spec fn bare_root<H, X>(r: Resource<H, X>) -> bool {
    &&& r.parent is None
    &&& r.suffix@.len() == 0
    &&& r.nonwild_prefix is None
    &&& r.children@.len() == 0
    &&& r.context is None
    &&& r.session_ctxs@ == Map::<usize, crate::context::SessionContext<X>>::empty()
    &&& r.holders == 0
}

/// Some resource among the matches of `res` has the key of `other`.
pub open spec fn matches_key<H, X>(t: &Tables<H, X>, res: int, other: int) -> bool {
    exists|k: int|
        0 <= k < t.matches_of(res).len() && (#[trigger] t.matches_of(res)[k] as int) < t.len()
            && t.expr_of(t.matches_of(res)[k] as int) == t.expr_of(other)
}

/// How `nonwild_prefix` splits the key of `res`: at the nearest
/// ancestor-or-self whose key has no wildcard, unless that is the root, in
/// which case the whole key is given with no resource.
pub open spec fn nonwild_split<H, X>(t: &Tables<H, X>, res: int) -> (Option<int>, Seq<char>) {
    match t.nonwild_of(res) {
        None => (Some(res), seq![]),
        Some((p, w)) => if t.expr_of(p).len() > 0 {
            (Some(p), w)
        } else {
            (None, t.expr_of(res))
        },
    }
}

/// Lexicographic measure of a walk from `from` along `s`: a climb to the
/// parent (at most one in a row) comes first, then the length left.
pub open spec fn climbs<H, X>(t: &Tables<H, X>, from: int, s: Seq<char>) -> int {
    if s.len() > 0 && s[0] != '/' && t.parent_of(from) is Some {
        1
    } else {
        0
    }
}

/// Every old node other than `r` keeps its routing context.
pub open spec fn contexts_kept<H, X>(old: &Tables<H, X>, new: &Tables<H, X>, r: int) -> bool {
    forall|i: int|
        0 <= i < old.len() && i != r ==> #[trigger] new.resources@[i].context
            == old.resources@[i].context
}

/// Every new node is attached, has no session context and no holder, and
/// only `r` among them has a routing context.
pub open spec fn new_nodes_bare<H, X>(old: &Tables<H, X>, new: &Tables<H, X>, r: int) -> bool {
    forall|i: int|
        old.len() <= i < new.len() ==> #[trigger] new.attached(i) && (i != r ==> !new.has_context(
            i,
        )) && new.resources@[i].session_ctxs@ == Map::<usize, crate::context::SessionContext<X>>::empty()
            && new.resources@[i].holders == 0
}

/// What `make_resource` leaves behind, for the key `key` and `hat`.
pub open spec fn made<H, X>(
    old: &Tables<H, X>,
    new: &Tables<H, X>,
    key: Seq<char>,
    hat: H,
    r: int,
) -> bool {
    &&& new.wf()
    &&& old.grows_into(new)
    &&& new.attached(r)
    &&& new.find(key) == Some(r)
    &&& new.expr_of(r) == key
    &&& (old.find(key) is Some ==> r == old.find(key)->0 && new.len() == old.len())
    &&& new.has_context(r)
    &&& (r < old.len() && old.has_context(r) ==> new.resources@[r].context
        == old.resources@[r].context)
    &&& (!(r < old.len() && old.has_context(r)) ==> new.resources@[r].context->0.is_fresh_with(
        hat,
    ))
    &&& contexts_kept(old, new, r)
    &&& new_nodes_bare(old, new, r)
}

impl<H, X> Resource<H, X> {
    /// The root resource: no parent, empty suffix, nothing declared.
    pub fn root() -> (r: Resource<H, X>)
        ensures
            bare_root(r),
    {
        Resource {
            parent: None,
            suffix: String::new(),
            nonwild_prefix: None,
            children: Vec::new(),
            context: None,
            session_ctxs: HashMap::new(),
            holders: 0,
        }
    }

    /// A new child of `parent` (found at index `parent_idx`) with `suffix`.
    fn new(
        parent: &Resource<H, X>,
        parent_idx: usize,
        suffix: &str,
        context: Option<ResourceContext<H>>,
    ) -> (r: Resource<H, X>)
        ensures
            r.parent == Some(parent_idx),
            r.suffix@ == suffix@,
            nonwild_view(r.nonwild_prefix) == child_nonwild(
                nonwild_view(parent.nonwild_prefix),
                parent_idx as int,
                suffix@,
            ),
            r.children@.len() == 0,
            r.context == context,
            r.session_ctxs@ == Map::<usize, crate::context::SessionContext<X>>::empty(),
            r.holders == 0,
    {
        let nonwild_prefix = match &parent.nonwild_prefix {
            None => {
                if contains_char(suffix, '*') {
                    Some((parent_idx, suffix.to_owned()))
                } else {
                    None
                }
            },
            Some((prefix, wildsuffix)) => Some((*prefix, wildsuffix.clone().concat(suffix))),
        };
        Resource {
            parent: Some(parent_idx),
            suffix: suffix.to_owned(),
            nonwild_prefix,
            children: Vec::new(),
            context,
            session_ctxs: HashMap::new(),
            holders: 0,
        }
    }

    /// The full key expression of resource `res`.
    pub fn expr(tables: &Tables<H, X>, res: usize) -> (r: String)
        requires
            tables.wf(),
            res < tables.resources@.len(),
        ensures
            r@ == tables.expr_of(res as int),
        decreases res,
    {
        assert(tables.node_wf(res as int));
        match tables.resources[res].parent {
            Some(p) => {
                let mut e = Self::expr(tables, p);
                e.append(tables.resources[res].suffix.as_str());
                e
            },
            None => String::new(),
        }
    }

    /// Splits the key of `res` at its nearest ancestor-or-self whose key has
    /// no wildcard: that resource and the rest of the key. When that
    /// resource would be the root, the whole key is returned with no resource.
    pub fn nonwild_prefix(tables: &Tables<H, X>, res: usize) -> (r: (Option<usize>, String))
        requires
            tables.wf(),
            tables.attached(res as int),
        ensures
            nonwild_shape(tables, res as int),
            (opt_index(r.0), r.1@) == nonwild_split(tables, res as int),
    {
        proof {
            lemma_attached_in_range(tables, res as int);
            lemma_nonwild_shape(tables, res as int);
        }
        match &tables.resources[res].nonwild_prefix {
            None => (Some(res), String::new()),
            Some((nonwild_prefix, wildsuffix)) => {
                let p = *nonwild_prefix;
                if !Self::expr(tables, p).as_str().is_empty() {
                    (Some(p), wildsuffix.clone())
                } else {
                    (None, Self::expr(tables, res))
                }
            },
        }
    }

    /// Whether some resource among the matches of `res` (which must have a
    /// routing context) has the key of `other`; entries that name no
    /// resource of the tables are passed over.
    pub fn matches(tables: &Tables<H, X>, res: usize, other: usize) -> (r: bool)
        requires
            tables.wf(),
            res < tables.resources@.len(),
            other < tables.resources@.len(),
            tables.has_context(res as int),
        ensures
            r == matches_key(tables, res as int, other as int),
    {
        let ctx = tables.resources[res].context.as_ref().unwrap();
        let key = Self::expr(tables, other);
        let n = tables.resources.len();
        let mut k: usize = 0;
        while k < ctx.matches.len()
            invariant
                tables.wf(),
                n == tables.len(),
                key@ == tables.expr_of(other as int),
                ctx.matches@ == tables.matches_of(res as int),
                0 <= k <= ctx.matches@.len(),
                forall|j: int|
                    0 <= j < k ==> !((#[trigger] ctx.matches@[j] as int) < tables.len()
                        && tables.expr_of(ctx.matches@[j] as int) == tables.expr_of(other as int)),
            decreases ctx.matches@.len() - k,
        {
            let m = ctx.matches[k];
            if m < n {
                let mk = Self::expr(tables, m);
                if mk == key {
                    assert(tables.expr_of(ctx.matches@[k as int] as int) == tables.expr_of(other as int));
                    return true;
                }
            }
            k = k + 1;
        }
        false
    }

    /// Gives `res` a fresh routing context holding `hat`, unless it has one.
    pub fn upgrade_resource(tables: &mut Tables<H, X>, res: usize, hat: H)
        requires
            old(tables).wf(),
            res < old(tables).resources@.len(),
        ensures
            final(tables).wf(),
            old(tables).grows_into(final(tables)),
            final(tables).len() == old(tables).len(),
            final(tables).has_context(res as int),
            old(tables).has_context(res as int) ==> final(tables).resources@[res as int].context
                == old(tables).resources@[res as int].context,
            !old(tables).has_context(res as int) ==> final(tables).resources@[res as int].context->0.is_fresh_with(
                hat,
            ),
            forall|i: int|
                0 <= i < old(tables).len() && i != res ==> #[trigger] final(tables).resources@[i]
                    == old(tables).resources@[i],
            final(tables).resources@[res as int].children == old(
                tables,
            ).resources@[res as int].children,
    {
        if tables.resources[res].context.is_none() {
            let ghost old_t = *tables;
            tables.resources[res].context = Some(ResourceContext::new(hat));
            proof {
                lemma_set_context(&old_t, tables, res as int);
            }
        } else {
            proof {
                lemma_grows_refl(tables);
            }
        }
    }

    /// Returns the resource found for `suffix` relative to `from`, if any.
    pub fn get_resource(tables: &Tables<H, X>, from: usize, suffix: &str) -> (r: Option<usize>)
        requires
            tables.wf(),
            tables.attached(from as int),
            starts_ascii(tables.expr_of(from as int) + suffix@),
        ensures
            opt_index(r) == tables.find(tables.expr_of(from as int) + suffix@),
        decreases climbs(tables, from as int, suffix@), suffix@.len(),
    {
        proof {
            lemma_attached_in_range(tables, from as int);
        }
        if suffix.is_empty() {
            proof {
                lemma_find_expr(tables, from as int);
                assert(tables.expr_of(from as int) + suffix@ =~= tables.expr_of(from as int));
            }
            return Some(from);
        }
        let slash = suffix.get_char(0) == '/';
        if !slash && tables.resources[from].parent.is_some() {
            let p = tables.resources[from].parent.unwrap();
            let climbed = tables.resources[from].suffix.clone().concat(suffix);
            proof {
                lemma_attached_parent(tables, from as int);
                assert(tables.expr_of(p as int) + climbed@ =~= tables.expr_of(from as int)
                    + suffix@);
            }
            return Self::get_resource(tables, p, climbed.as_str());
        }
        proof {
            if !slash {
                assert(from == 0) by {
                    if from != 0 {
                        lemma_attached_parent(tables, from as int);
                    }
                }
            }
            lemma_find_from(tables, from as int, suffix@);
            lemma_lookup_step(tables, from as int, suffix@);
            lemma_chunk_split(suffix@);
        }
        let (chunk, rest) = split_chunk(suffix);
        match tables.get_child(from, chunk) {
            Some(c) => {
                proof {
                    lemma_child_with_some(tables, from as int, chunk@);
                    lemma_find_from(tables, c as int, rest@);
                    assert(tables.expr_of(c as int) + rest@ =~= tables.expr_of(from as int)
                        + suffix@);
                }
                Self::get_resource(tables, c, rest)
            },
            None => None,
        }
    }

    /// Returns the resource for `suffix` relative to `from`, which must exist.
    pub fn check_resource(tables: &Tables<H, X>, from: usize, suffix: &str) -> (r: usize)
        requires
            tables.wf(),
            tables.attached(from as int),
            starts_ascii(tables.expr_of(from as int) + suffix@),
            tables.find(tables.expr_of(from as int) + suffix@) is Some,
        ensures
            tables.find(tables.expr_of(from as int) + suffix@) == Some(r as int),
        decreases climbs(tables, from as int, suffix@), suffix@.len(),
    {
        proof {
            lemma_attached_in_range(tables, from as int);
        }
        if suffix.is_empty() {
            proof {
                lemma_find_expr(tables, from as int);
                assert(tables.expr_of(from as int) + suffix@ =~= tables.expr_of(from as int));
            }
            return from;
        }
        let slash = suffix.get_char(0) == '/';
        if !slash && tables.resources[from].parent.is_some() {
            let p = tables.resources[from].parent.unwrap();
            let climbed = tables.resources[from].suffix.clone().concat(suffix);
            proof {
                lemma_attached_parent(tables, from as int);
                assert(tables.expr_of(p as int) + climbed@ =~= tables.expr_of(from as int)
                    + suffix@);
            }
            return Self::check_resource(tables, p, climbed.as_str());
        }
        proof {
            if !slash {
                assert(from == 0) by {
                    if from != 0 {
                        lemma_attached_parent(tables, from as int);
                    }
                }
            }
            lemma_find_from(tables, from as int, suffix@);
            lemma_lookup_step(tables, from as int, suffix@);
            lemma_chunk_split(suffix@);
        }
        let (chunk, rest) = split_chunk(suffix);
        let c = tables.get_child(from, chunk).unwrap();
        proof {
            lemma_child_with_some(tables, from as int, chunk@);
            lemma_find_from(tables, c as int, rest@);
            assert(tables.expr_of(c as int) + rest@ =~= tables.expr_of(from as int) + suffix@);
        }
        Self::check_resource(tables, c, rest)
    }

    /// Returns the resource for `suffix` relative to `from`, creating the
    /// missing resources on the way; the resource returned gets a routing
    /// context holding `hat` if it had none.
    #[verifier::spinoff_prover]
    pub fn make_resource(tables: &mut Tables<H, X>, from: usize, suffix: &str, hat: H) -> (r:
        usize)
        requires
            old(tables).wf(),
            old(tables).attached(from as int),
            starts_ascii(old(tables).expr_of(from as int) + suffix@),
        ensures
            made(old(tables), final(tables), old(tables).expr_of(from as int) + suffix@, hat, r as int),
        decreases climbs(old(tables), from as int, suffix@), suffix@.len(),
    {
        let ghost old_t = *tables;
        let ghost key = old_t.expr_of(from as int) + suffix@;
        proof {
            lemma_attached_in_range(tables, from as int);
        }
        if suffix.is_empty() {
            proof {
                lemma_find_expr(tables, from as int);
                assert(tables.expr_of(from as int) + suffix@ =~= tables.expr_of(from as int));
            }
            Self::upgrade_resource(tables, from, hat);
            proof {
                crate::tree::lemma_grows_attached(&old_t, tables, from as int);
                lemma_find_expr(tables, from as int);
            }
            return from;
        }
        let slash = suffix.get_char(0) == '/';
        if !slash && tables.resources[from].parent.is_some() {
            let p = tables.resources[from].parent.unwrap();
            let climbed = tables.resources[from].suffix.clone().concat(suffix);
            proof {
                lemma_attached_parent(tables, from as int);
                assert(tables.expr_of(p as int) + climbed@ =~= tables.expr_of(from as int)
                    + suffix@);
            }
            let r = Self::make_resource(tables, p, climbed.as_str(), hat);
            proof {
                assert(old_t.expr_of(p as int) + climbed@ == old_t.expr_of(from as int) + suffix@);
            }
            return r;
        }
        proof {
            if !slash {
                assert(from == 0) by {
                    if from != 0 {
                        lemma_attached_parent(tables, from as int);
                    }
                }
            }
            lemma_find_from(tables, from as int, suffix@);
            lemma_lookup_step(tables, from as int, suffix@);
            lemma_chunk_split(suffix@);
        }
        let (chunk, rest) = split_chunk(suffix);
        match tables.get_child(from, chunk) {
            Some(c) => {
                proof {
                    lemma_child_with_some(tables, from as int, chunk@);
                    lemma_find_from(tables, c as int, rest@);
                    assert(tables.expr_of(c as int) + rest@ =~= tables.expr_of(from as int)
                        + suffix@);
                }
                let r = Self::make_resource(tables, c, rest, hat);
                proof {
                    assert(old_t.expr_of(c as int) + rest@ == key);
                }
                r
            },
            None => {
                let n = tables.resources.len();
                let node = Self::new(&tables.resources[from], from, chunk, None);
                let ghost bare = node;
                tables.resources.push(node);
                tables.resources[from].children.push(n);
                let ghost mid = *tables;
                proof {
                    assert(mid.resources@[n as int] == bare);
                    assert(chunk@[0] == suffix@[0]);
                    if from != 0 {
                        lemma_expr_ascii(&old_t, from as int);
                        lemma_attached_parent(&old_t, from as int);
                    } else {
                        assert(old_t.expr_of(0) + suffix@ =~= suffix@);
                    }
                    lemma_add_child(&old_t, &mid, from as int, chunk@, n);
                    lemma_find_from(&mid, n as int, rest@);
                    assert(mid.expr_of(n as int) + rest@ =~= old_t.expr_of(from as int)
                        + suffix@);
                }
                let r = Self::make_resource(tables, n, rest, hat);
                proof {
                    lemma_grows_trans(&old_t, &mid, tables);
                    assert forall|i: int| 0 <= i < old_t.len() && i != r implies #[trigger] tables.resources@[i].context
                        == old_t.resources@[i].context by {
                        assert(tables.resources@[i].context == mid.resources@[i].context);
                        if i != from {
                            assert(mid.resources@[i] == old_t.resources@[i]);
                        }
                    }
                    assert(new_nodes_bare(&old_t, tables, r as int)) by {
                    assert forall|i: int| old_t.len() <= i < tables.len() implies #[trigger] tables.attached(i)
                        && (i != r ==> !tables.has_context(i)) && tables.resources@[i].session_ctxs@
                        == Map::<usize, crate::context::SessionContext<X>>::empty()
                        && tables.resources@[i].holders == 0 by {
                        if i > n {
                            assert(mid.len() <= i < tables.len());
                            assert(tables.attached(i));
                        }
                        if i == n {
                            assert(mid.kept_in(tables, i));
                            assert(mid.resources@[i].holders == 0);
                            assert(mid.resources@[i].session_ctxs@ == Map::<usize, crate::context::SessionContext<X>>::empty());
                            crate::tree::lemma_grows_attached(&mid, tables, i);
                            if i != r {
                                assert(tables.resources@[i].context == mid.resources@[i].context);
                            }
                        }
                    }
                    }
                    assert(!mid.has_context(n as int));
                    assert(old_t.find(old_t.expr_of(from as int) + suffix@) is None);
                    if (r as int) < old_t.len() {
                        assert(false) by {
                            crate::tree::lemma_grows_attached(&old_t, tables, r as int);
                            lemma_find_expr(&old_t, r as int);
                        }
                    }
                    assert(mid.expr_of(n as int) + rest@ == key);
                    assert(old_t.find(key) is None);
                    assert(contexts_kept(&old_t, tables, r as int));
                }
                r
            },
        }
    }
}

impl<H, X> Tables<H, X> {
    /// Tables holding only the root resource.
    pub fn new() -> (t: Tables<H, X>)
        ensures
            t.wf(),
            t.root_res == 0,
            t.len() == 1,
            bare_root(t.resources@[0]),
    {
        let mut resources = Vec::new();
        resources.push(Resource::root());
        let t = Tables { root_res: 0, resources };
        assert(t.node_wf(0));
        t
    }

    /// The child of `n` whose suffix is `chunk`.
    pub fn get_child(&self, n: usize, chunk: &str) -> (r: Option<usize>)
        requires
            self.wf(),
            n < self.resources@.len(),
        ensures
            opt_index(r) == self.child_with(n as int, chunk@),
    {
        let key = chunk.to_owned();
        let children = &self.resources[n].children;
        let mut k: usize = 0;
        assert(self.node_wf(n as int));
        while k < children.len()
            invariant
                self.wf(),
                n < self.resources@.len(),
                self.node_wf(n as int),
                children@ == self.children_of(n as int),
                key@ == chunk@,
                0 <= k <= children.len(),
                forall|j: int| 0 <= j < k ==> self.suffix_of(children@[j] as int) != chunk@,
            decreases children.len() - k,
        {
            let c = children[k];
            assert(self.child_ok(n as int, children@[k as int] as int));
            if self.resources[c].suffix == key {
                proof {
                    lemma_child_with_is(self, n as int, k as int);
                }
                return Some(c);
            }
            k = k + 1;
        }
        None
    }
}

} // verus!
