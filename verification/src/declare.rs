//! Choosing how to name a key towards a session: by the best declared prefix
//! (`get_best_key`), and by declaring an id for a resource to a face
//! (`decl_key`).

use vstd::prelude::*;
use crate::context::{DeclareKeyExpr, ExprId, Mapping, SessionContext, WireExpr};
use crate::face::{face_ok, has_free_id, interested_in, next_free_id, FaceState};
use crate::keys::{find_char_from, first_from, lemma_first_from};
use crate::resource::nonwild_split;
use crate::tree::{
    lemma_attached_in_range, lemma_child_with_some, lemma_same_shape, same_shape, Resource,
    Tables,
};

verus! {

/// Length of the first piece of `s` as `get_best_key` cuts it: up to the
/// first `/`, or all of `s`.
pub open spec fn head_len(s: Seq<char>) -> int {
    match first_from(s, '/', 0) {
        Some(i) => i,
        None => s.len() as int,
    }
}

/// Walks down from `n` along `s` while a child holds the next piece; gives
/// the node reached and what is left of `s`.
pub open spec fn descend<H, X>(t: &Tables<H, X>, n: int, s: Seq<char>) -> (int, Seq<char>)
    decreases s.len(),
{
    let e = head_len(s);
    if s.len() > 0 && 0 < e <= s.len() {
        match t.child_with(n, s.take(e)) {
            Some(m) => descend(t, m, s.skip(e)),
            None => (n, s),
        }
    } else {
        (n, s)
    }
}

/// Climbs from `n`, with `s` left to name, to the first resource that the
/// session `sid` declared (preferring its own declaration), or to the top.
pub open spec fn climb<H, X>(t: &Tables<H, X>, n: int, s: Seq<char>, sid: usize) -> (
    ExprId,
    Seq<char>,
    Mapping,
)
    decreases n,
{
    let ctxs = t.resources@[n].session_ctxs@;
    if ctxs.contains_key(sid) && ctxs[sid].remote_expr_id is Some {
        (ctxs[sid].remote_expr_id->0, s, Mapping::Receiver)
    } else if ctxs.contains_key(sid) && ctxs[sid].local_expr_id is Some {
        (ctxs[sid].local_expr_id->0, s, Mapping::Sender)
    } else {
        match t.parent_of(n) {
            Some(p) => if 0 <= p < n {
                climb(t, p as int, t.suffix_of(n) + s, sid)
            } else {
                (0, s, Mapping::Sender)
            },
            None => (0, s, Mapping::Sender),
        }
    }
}

/// The key `get_best_key` gives for `suffix` below `prefix`, towards `sid`.
pub open spec fn best_key<H, X>(t: &Tables<H, X>, prefix: int, suffix: Seq<char>, sid: usize) -> (
    ExprId,
    Seq<char>,
    Mapping,
) {
    let (d, rest) = descend(t, prefix, suffix);
    climb(t, d, rest, sid)
}

pub open spec fn wire_view(w: WireExpr) -> (ExprId, Seq<char>, Mapping) {
    (w.scope, w.suffix@, w.mapping)
}

/// The context resource `p` keeps for face `fid`, if any.
pub open spec fn session_at<H, X>(t: &Tables<H, X>, p: int, fid: usize) -> Option<
    SessionContext<X>,
> {
    if t.resources@[p].session_ctxs@.contains_key(fid) {
        Some(t.resources@[p].session_ctxs@[fid])
    } else {
        None
    }
}

/// The session context of face `fid` once this side declared `id` for it.
pub open spec fn with_local_id<X>(old: Option<SessionContext<X>>, fid: usize, id: ExprId) -> SessionContext<X> {
    match old {
        Some(c) => SessionContext {
            face: c.face,
            local_expr_id: Some(id),
            remote_expr_id: c.remote_expr_id,
            subs: c.subs,
            qabl: c.qabl,
            token: c.token,
            in_interceptor_cache: c.in_interceptor_cache,
            e_interceptor_cache: c.e_interceptor_cache,
        },
        None => SessionContext {
            face: fid,
            local_expr_id: Some(id),
            remote_expr_id: None,
            subs: None,
            qabl: None,
            token: false,
            in_interceptor_cache: None,
            e_interceptor_cache: None,
        },
    }
}

/// `new` is `old` where resource `p` now keeps `ctx` for face `fid` and has
/// one more holder.
pub open spec fn declared_at<H, X>(
    old: &Tables<H, X>,
    new: &Tables<H, X>,
    p: int,
    fid: usize,
    ctx: SessionContext<X>,
) -> bool {
    &&& new.root_res == old.root_res
    &&& new.len() == old.len()
    &&& forall|i: int| 0 <= i < old.len() && i != p ==> #[trigger] new.resources@[i] == old.resources@[i]
    &&& new.resources@[p].parent == old.resources@[p].parent
    &&& new.resources@[p].suffix == old.resources@[p].suffix
    &&& new.resources@[p].nonwild_prefix == old.resources@[p].nonwild_prefix
    &&& new.resources@[p].children == old.resources@[p].children
    &&& new.resources@[p].context == old.resources@[p].context
    &&& new.resources@[p].session_ctxs@ == old.resources@[p].session_ctxs@.insert(fid, ctx)
    &&& new.resources@[p].holders == old.resources@[p].holders + 1
}

/// `decl_key` declares a new id for resource `p`, the wildcard-free prefix
/// of the resource asked for: the face's session on `p` has no id yet, and
/// the call pushes or the face is interested in `p`.
pub open spec fn declares_at<H, X>(t: &Tables<H, X>, face: &FaceState, p: int, push: bool) -> bool {
    let sess = session_at(t, p, face.id);
    &&& !(sess is Some && (sess->0.remote_expr_id is Some || sess->0.local_expr_id is Some))
    &&& (push || interested_in(t, face, p))
}

/// Where `decl_key` declares a new id, the face has one free and the
/// resource it is declared for can count one more holder.
pub open spec fn declare_room<H, X>(t: &Tables<H, X>, face: &FaceState, res: int, push: bool) -> bool {
    match nonwild_split(t, res).0 {
        Some(p) => declares_at(t, face, p, push) ==> has_free_id(face) && t.resources@[p].holders
            < usize::MAX,
        None => true,
    }
}

/// What `decl_key` does for `res` towards `old_f`.
pub open spec fn decl_key_effect<H, X>(
    old_t: &Tables<H, X>,
    new_t: &Tables<H, X>,
    old_f: &FaceState,
    new_f: &FaceState,
    res: int,
    push: bool,
    r: (WireExpr, Option<DeclareKeyExpr>),
) -> bool {
    let (np, w) = nonwild_split(old_t, res);
    let unchanged = *new_t == *old_t && *new_f == *old_f;
    match np {
        None => wire_view(r.0) == (0u16, w, Mapping::Sender) && r.1 is None && unchanged,
        Some(p) => {
            let sess = session_at(old_t, p, old_f.id);
            if sess is Some && sess->0.remote_expr_id is Some {
                wire_view(r.0) == (sess->0.remote_expr_id->0, w, Mapping::Receiver) && r.1 is None
                    && unchanged
            } else if sess is Some && sess->0.local_expr_id is Some {
                wire_view(r.0) == (sess->0.local_expr_id->0, w, Mapping::Sender) && r.1 is None
                    && unchanged
            } else if push || interested_in(old_t, old_f, p) {
                &&& r.1 is Some
                &&& next_free_id(old_f, r.1->0.id)
                &&& wire_view(r.0) == (r.1->0.id, w, Mapping::Sender)
                &&& wire_view(r.1->0.wire_expr) == (0u16, old_t.expr_of(p), Mapping::Sender)
                &&& new_f.id == old_f.id
                &&& new_f.local_mappings@ == old_f.local_mappings@.insert(r.1->0.id, p as usize)
                &&& new_f.remote_mappings@ == old_f.remote_mappings@
                &&& new_f.remote_key_interests@ == old_f.remote_key_interests@
                &&& declared_at(old_t, new_t, p, old_f.id, with_local_id(sess, old_f.id, r.1->0.id))
            } else {
                wire_view(r.0) == (0u16, old_t.expr_of(res), Mapping::Sender) && r.1 is None
                    && unchanged
            }
        },
    }
}

impl<H, X> Resource<H, X> {
    fn best_key_from(
        tables: &Tables<H, X>,
        prefix: usize,
        suffix: &str,
        sid: usize,
        checkchildren: bool,
    ) -> (w: WireExpr)
        requires
            tables.wf(),
            prefix < tables.resources@.len(),
        ensures
            wire_view(w) == if checkchildren {
                best_key(tables, prefix as int, suffix@, sid)
            } else {
                climb(tables, prefix as int, suffix@, sid)
            },
        decreases (if checkchildren {
            1int
        } else {
            0int
        }), (if checkchildren {
            suffix@.len() as int
        } else {
            prefix as int
        }),
    {
        broadcast use vstd::std_specs::hash::group_hash_axioms;

        assert(tables.node_wf(prefix as int));
        if checkchildren && !suffix.is_empty() {
            let n = suffix.unicode_len();
            let e = match find_char_from(suffix, '/', 0) {
                Some(i) => i,
                None => n,
            };
            proof {
                lemma_first_from(suffix@, '/', 0);
            }
            let chunk = suffix.substring_char(0, e);
            let rest = suffix.substring_char(e, n);
            match tables.get_child(prefix, chunk) {
                Some(child) => {
                    proof {
                        lemma_child_with_some(tables, prefix as int, chunk@);
                        assert(chunk@ == suffix@.take(e as int));
                        assert(rest@ == suffix@.skip(e as int));
                    }
                    return Self::best_key_from(tables, child, rest, sid, true);
                },
                None => {
                    proof {
                        if e > 0 {
                            assert(chunk@ == suffix@.take(e as int));
                        }
                    }
                },
            }
        }
        match tables.resources[prefix].session_ctxs.get(&sid) {
            Some(ctx) => {
                match ctx.remote_expr_id {
                    Some(expr_id) => {
                        return WireExpr::scoped(expr_id, suffix.to_owned(), Mapping::Receiver);
                    },
                    None => {},
                }
                match ctx.local_expr_id {
                    Some(expr_id) => {
                        return WireExpr::scoped(expr_id, suffix.to_owned(), Mapping::Sender);
                    },
                    None => {},
                }
            },
            None => {},
        }
        match tables.resources[prefix].parent {
            Some(parent) => {
                let climbed = tables.resources[prefix].suffix.clone().concat(suffix);
                Self::best_key_from(tables, parent, climbed.as_str(), sid, false)
            },
            None => WireExpr::from_string(suffix.to_owned()),
        }
    }

    /// The shortest way to name `suffix` below `prefix` towards the session
    /// `sid`: walk down while children hold the next pieces, then up to the
    /// first resource that session declared, scoping the rest by its id; a
    /// plain key when there is none.
    pub fn get_best_key(tables: &Tables<H, X>, prefix: usize, suffix: &str, sid: usize) -> (w:
        WireExpr)
        requires
            tables.wf(),
            prefix < tables.resources@.len(),
        ensures
            wire_view(w) == best_key(tables, prefix as int, suffix@, sid),
    {
        Self::best_key_from(tables, prefix, suffix, sid, true)
    }

    /// How to name `res` towards `face`: by the expression id that either
    /// side declared for its nearest wildcard-free ancestor, followed by the
    /// rest of its key. When neither did, this side declares one if asked
    /// to (`push`) or if the face expressed an interest covering that
    /// ancestor; the declaration to send to the face is returned with it.
    pub fn decl_key(tables: &mut Tables<H, X>, res: usize, face: &mut FaceState, push: bool) -> (r: (
        WireExpr,
        Option<DeclareKeyExpr>,
    ))
        requires
            old(tables).wf(),
            old(tables).attached(res as int),
            face_ok(old(tables), old(face)),
            declare_room(old(tables), old(face), res as int, push),
        ensures
            final(tables).wf(),
            face_ok(final(tables), final(face)),
            decl_key_effect(old(tables), final(tables), old(face), final(face), res as int, push, r),
    {
        broadcast use vstd::std_specs::hash::group_hash_axioms;

        let ghost old_t = *tables;
        let (nonwild_prefix, wildsuffix) = Self::nonwild_prefix(tables, res);
        match nonwild_prefix {
            Some(p) => {
                proof {
                    lemma_attached_in_range(tables, res as int);
                    assert(tables.attached(p as int));
                    lemma_attached_in_range(tables, p as int);
                }
                let fid = face.id;
                match tables.resources[p].session_ctxs.get(&fid) {
                    Some(ctx) => {
                        match ctx.remote_expr_id {
                            Some(expr_id) => {
                                return (WireExpr::scoped(expr_id, wildsuffix, Mapping::Receiver), None);
                            },
                            None => {},
                        }
                        match ctx.local_expr_id {
                            Some(expr_id) => {
                                return (WireExpr::scoped(expr_id, wildsuffix, Mapping::Sender), None);
                            },
                            None => {},
                        }
                    },
                    None => {},
                }
                if push || face.is_interested(tables, p) {
                    let ghost sess = session_at(tables, p as int, fid);
                    let expr_id = face.get_next_local_id();
                    let mut ctx = match tables.resources[p].session_ctxs.remove(&fid) {
                        Some(c) => c,
                        None => SessionContext::new(fid),
                    };
                    ctx.local_expr_id = Some(expr_id);
                    tables.resources[p].session_ctxs.insert(fid, ctx);
                    tables.resources[p].holders = tables.resources[p].holders + 1;
                    face.local_mappings.insert(expr_id, p);
                    proof {
                        assert(same_shape(&old_t, tables)) by {
                            assert forall|i: int| 0 <= i < old_t.len() implies #[trigger] tables.resources@[i].parent
                                == old_t.resources@[i].parent by {}
                        }
                        lemma_same_shape(&old_t, tables);
                        assert(tables.resources@[p as int].session_ctxs@ =~= old_t.resources@[p as int].session_ctxs@.insert(
                            fid,
                            with_local_id(sess, fid, expr_id),
                        ));
                    }
                    let declare = DeclareKeyExpr {
                        id: expr_id,
                        wire_expr: WireExpr::from_string(Self::expr(tables, p)),
                    };
                    (WireExpr::scoped(expr_id, wildsuffix, Mapping::Sender), Some(declare))
                } else {
                    (WireExpr::from_string(Self::expr(tables, res)), None)
                }
            },
            None => (WireExpr::from_string(wildsuffix), None),
        }
    }

}

} // verus!
