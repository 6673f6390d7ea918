//! Instantiation: add the term that a pattern stands for under bindings.

use super::applying::{added_as, built, kid_ops, kids_built, leads, lemma_kid_ops, ops};
use super::closure::{is_canonical, lemma_closed, tidy};
use super::graph::{overlay, write_children};
use super::hooks::HookEvent;
use super::growth::{fresh_at, fresh_from, instance, lemma_instance_grows, within};
use super::labels::no_new_edges;
use super::lang::{copy_node, lawful, lemma_same_op, lemma_with_kids, Id, Language};
use super::matching::{bound_in, lemma_stands_class, stands_for, Bound};
use super::meaning::{lemma_readable_added, lemma_readable_refl, lemma_readable_trans, readable};
use super::model::{
    canon, canon_ids, coarsens, holds_node, in_range, lemma_canon_eq, lemma_canon_same,
    lemma_canon_twice, lemma_first_holder, Model,
};
use super::rewrite::{Pattern, Subst};
use super::{keeps_nodes, Analysis, ClassData, EGraph};
use vstd::prelude::*;

verus! {

/// Nodes with the same operator have the same number of children.
pub open spec fn fixed_arity<L: Language>() -> bool {
    forall|a: L, b: L| #[trigger] a.same_op(&b) ==> a.kids().len() == b.kids().len()
}

/// A class keeps standing for a pattern while the graph grows.
pub proof fn lemma_stands_grows<L: Language>(
    m: Model<L>,
    n: Model<L>,
    id: Id,
    p: Pattern<L>,
    s: Bound,
)
    requires
        lawful::<L>(),
        m.shape(),
        n.shape(),
        coarsens(m.roots, n.roots),
        keeps_nodes(m, n),
        m.has(id),
        bound_in(m, s),
        stands_for(m, id, p, s),
    ensures
        stands_for(n, id, p, s),
    decreases p,
{
    match p {
        Pattern::Var(name) => {
            assert(m.has(s[name@]));
            assert(m.roots[s[name@].at()] == m.roots[id.at()]);
        },
        Pattern::Op { node, children } => {
            let a = choose|a: int|
                0 <= a < m.class(id).len() && #[trigger] m.class(id)[a].same_op(&node)
                    && forall|i: int|
                    #![trigger children@[i]]
                    0 <= i < children@.len() && i < m.class(id)[a].kids().len() ==> stands_for(
                        m,
                        m.class(id)[a].kids()[i],
                        children@[i],
                        s,
                    );
            let r = m.root(id);
            let own = m.nodes[r.at()][a];
            assert(own == m.class(id)[a]);
            assert(m.knows(m.nodes[r.at()][a]));
            assert(m.root(r) == r);
            assert(n.root(r) == n.root(id)) by {
                assert(m.roots[r.at()] == m.roots[id.at()]);
            }
            assert(holds_node(n.roots, n.class(Id(r.at() as u32)), canon(n.roots, own)));
            let b = choose|b: int|
                0 <= b < n.class(id).len() && canon(n.roots, #[trigger] n.class(id)[b]) == canon(
                    n.roots,
                    own,
                );
            let now = n.class(id)[b];
            lemma_canon_eq(n.roots, now, own);
            lemma_same_op(&now, &own, &node);
            assert(canon_ids(n.roots, now.kids()).len() == canon_ids(n.roots, own.kids()).len());
            assert forall|i: int|
                #![trigger children@[i]]
                0 <= i < children@.len() && i < now.kids().len() implies stands_for(
                n,
                now.kids()[i],
                children@[i],
                s,
            ) by {
                assert(m.has(own.kids()[i]));
                lemma_stands_grows(m, n, own.kids()[i], children@[i], s);
                assert(canon_ids(n.roots, now.kids())[i] == canon_ids(n.roots, own.kids())[i]);
                lemma_stands_class(n, own.kids()[i], now.kids()[i], children@[i], s);
            }
            assert(now.same_op(&node));
        },
    }
}

/// In a congruence-closed graph at most one class stands for a pattern.
pub proof fn lemma_stands_unique<L: Language>(
    m: Model<L>,
    x: Id,
    y: Id,
    p: Pattern<L>,
    s: Bound,
)
    requires
        lawful::<L>(),
        fixed_arity::<L>(),
        m.shape(),
        m.consistent(),
        m.pending.len() == 0,
        m.has(x),
        m.has(y),
        p.regular(),
        stands_for(m, x, p, s),
        stands_for(m, y, p, s),
    ensures
        m.root(x) == m.root(y),
    decreases p,
{
    if let Pattern::Op { node, children } = p {
        let a = choose|a: int|
            0 <= a < m.class(x).len() && #[trigger] m.class(x)[a].same_op(&node) && forall|i: int|
                #![trigger children@[i]]
                0 <= i < children@.len() && i < m.class(x)[a].kids().len() ==> stands_for(
                    m,
                    m.class(x)[a].kids()[i],
                    children@[i],
                    s,
                );
        let b = choose|b: int|
            0 <= b < m.class(y).len() && #[trigger] m.class(y)[b].same_op(&node) && forall|i: int|
                #![trigger children@[i]]
                0 <= i < children@.len() && i < m.class(y)[b].kids().len() ==> stands_for(
                    m,
                    m.class(y)[b].kids()[i],
                    children@[i],
                    s,
                );
        let (u, v) = (m.class(x)[a], m.class(y)[b]);
        let (k, l) = (m.root(x).at(), m.root(y).at());
        assert(m.knows(m.nodes[k][a]) && m.knows(m.nodes[l][b]));
        assert(canon_ids(m.roots, u.kids()) =~= canon_ids(m.roots, v.kids())) by {
            assert forall|i: int| 0 <= i < u.kids().len() implies m.roots[u.kids()[i].at()]
                == m.roots[v.kids()[i].at()] by {
                assert(children@[i].regular());
                assert(m.has(u.kids()[i]) && m.has(v.kids()[i]));
                lemma_stands_unique(m, u.kids()[i], v.kids()[i], children@[i], s);
            }
        }
        lemma_same_op(&node, &v, &v);
        lemma_same_op(&u, &node, &v);
        lemma_same_op(&v, &node, &v);
        lemma_canon_eq(m.roots, u, v);
        lemma_closed(m, k, a, l, b);
    }
}

/// `n` has all of `m`, and besides only new classes.
pub open spec fn only_added<L: Language>(m: Model<L>, n: Model<L>) -> bool {
    &&& m.len() <= n.len()
    &&& n.pending == m.pending
    &&& n.nodes.len() == n.len()
    &&& forall|i: int| #![trigger n.nodes[i]] 0 <= i < m.len() ==> n.nodes[i] == m.nodes[i]
    &&& forall|i: int|
        #![trigger n.roots[i]]
        0 <= i < n.len() ==> n.roots[i] == if i < m.len() {
            m.roots[i]
        } else {
            Id(i as u32)
        }
    &&& forall|key: L| #[trigger]
        m.memo.contains_key(key) ==> n.memo.contains_key(key) && n.memo[key] == m.memo[key]
    &&& forall|key: L| #[trigger]
        n.memo.contains_key(key) ==> m.memo.contains_key(key) || n.memo[key].at() >= m.len()
}

pub proof fn lemma_only_added_trans<L: Language>(a: Model<L>, b: Model<L>, c: Model<L>)
    requires
        only_added(a, b),
        only_added(b, c),
    ensures
        only_added(a, c),
{
    assert forall|i: int| #![trigger c.roots[i]] 0 <= i < c.len() implies c.roots[i] == if i
        < a.len() {
        a.roots[i]
    } else {
        Id(i as u32)
    } by {
        if i < b.len() {
            assert(b.roots[i] == c.roots[i]);
        }
    }
    assert forall|key: L| #[trigger] a.memo.contains_key(key) implies c.memo.contains_key(key)
        && c.memo[key] == a.memo[key] by {
        assert(b.memo.contains_key(key));
    }
    assert forall|key: L| #[trigger] c.memo.contains_key(key) implies a.memo.contains_key(key)
        || c.memo[key].at() >= a.len() by {
        if b.memo.contains_key(key) {
            assert(a.memo.contains_key(key) || b.memo[key].at() >= a.len());
        }
    }
}

impl<L: Language, N: Analysis<L>> EGraph<L, N> {
    /// Add `node`, unless it needs a new id and all ids are in use.
    fn add_if_room(&mut self, node: L) -> (id: Option<Id>)
        requires
            old(self).wf(),
            old(self).model().knows(node),
        ensures
            final(self).wf(),
            old(self).grows_into(final(self)),
            final(self).reason() == old(self).reason(),
            only_added(old(self).model(), final(self).model()),
            readable(old(self).model(), final(self).model()),
            no_new_edges(old(self).edges(), final(self).edges()),
            final(self).model() == old(self).model() || final(self).model()
                == old(self).model().added(canon(old(self).model().roots, node)),
            id is None ==> old(self).same(final(self)) && !old(self).room(),
            id is Some ==> added_as(old(self), final(self), node, id->0),
            final(self).model().len() <= old(self).model().len() + 1,
            id matches Some(made) ==> {
                &&& final(self).model().has(made)
                &&& final(self).model().root(made) == made
                &&& holds_node(
                    final(self).model().roots,
                    final(self).model().class(made),
                    canon(final(self).model().roots, node),
                )
            },
            ({
                if old(self).model().looked_up(node) is Some {
                    &&& id == old(self).model().looked_up(node)
                    &&& old(self).same(final(self))
                } else {
                    id is Some ==> id->0.at() == old(self).model().len()
                }
            }),
    {
        let ghost m = self.model();
        proof {
            self.lemma_safe();
        }
        if self.id_count() as u128 > u32::MAX as u128 {
            if self.lookup(&node).is_none() {
                proof {
                    self.lemma_grows_refl();
                    lemma_readable_refl(m);
                }
                return None;
            }
        }
        let ghost form = canon(m.roots, node);
        let id = self.add(node);
        proof {
            if m.looked_up(node) is Some {
                lemma_readable_refl(m);
            } else {
                lemma_canon_twice(m.roots, node);
                assert(canon_ids(m.roots, form.kids()) =~= form.kids());
                lemma_readable_added(m, form);
            }
        }
        Some(id)
    }

    /// Instantiate `pattern` under `subst`, adding needed nodes; returns its
    /// class, or `None` if there are no ids left.
    pub(crate) fn instantiate(&mut self, pattern: &Pattern<L>, subst: &Subst) -> (id: Option<Id>)
        requires
            old(self).wf(),
            pattern.closed_by(subst@),
            pattern.fits_in(old(self).model().len()),
            bound_in(old(self).model(), subst@),
        ensures
            final(self).wf(),
            old(self).grows_into(final(self)),
            final(self).reason() == old(self).reason(),
            only_added(old(self).model(), final(self).model()),
            readable(old(self).model(), final(self).model()),
            no_new_edges(old(self).edges(), final(self).edges()),
            fresh_from(old(self).model(), final(self).model(), *pattern, subst@),
            id is None ==> !final(self).room(),
            id is Some ==> built(old(self), final(self), *pattern, subst@, id->0),
            final(self).model().len() <= old(self).model().len() + ops(*pattern),
            id matches Some(made) ==> {
                &&& final(self).model().has(made)
                &&& final(self).model().root(made) == made
                &&& stands_for(final(self).model(), made, *pattern, subst@)
            },
            pattern.regular() && id is Some && id->0.at() < old(self).model().len() ==> old(self).same(final(self)),
            forall|x: Id|
                #![trigger stands_for(old(self).model(), x, *pattern, subst@)]
                tidy(old(self).model()) && fixed_arity::<L>() && pattern.regular() && old(self).model().has(x) && stands_for(old(self).model(), x, *pattern, subst@) ==> id
                    == Some(old(self).model().root(x)) && old(self).same(final(self)),
        decreases pattern, 1nat,
    {
        let ghost m = self.model();
        proof {
            self.lemma_safe();
            lemma_readable_refl(m);
        }
        match pattern {
            Pattern::Var(name) => {
                let bound = *subst.get(name.as_str()).unwrap();
                let id = self.find(bound);
                proof {
                    old(self).lemma_same_evolved(self);
                    assert(old(self).grows_into(self));
                }
                Some(id)
            },
            Pattern::Op { node, children } => {
                let found = self.instantiate_children(pattern, subst);
                let ghost mid = *self;
                let ids = match found {
                    Some(ids) => ids,
                    None => {
                        proof {
                            assert forall|x: Id|
                                #![trigger stands_for(m, x, *pattern, subst@)]
                                tidy(m) && fixed_arity::<L>() && pattern.regular() && m.has(x)
                                    && stands_for(m, x, *pattern, subst@) implies false by {
                                let a = lemma_kids_of(m, x, *pattern, subst@);
                            }
                        }
                        return None;
                    },
                };
                let mut own = copy_node(node);
                write_children(&mut own, &ids);
                proof {
                    mid.lemma_safe();
                    let kids = overlay(node.kids(), ids@);
                    lemma_with_kids(node, kids);
                    assert forall|j: int| 0 <= j < kids.len() implies (#[trigger] kids[j]).at()
                        < mid.model().len() by {
                        if j < ids@.len() {
                            assert(mid.model().has(ids@[j]));
                        } else {
                            assert(node.kids()[j].at() < m.len());
                        }
                    }
                    assert(mid.model().knows(own));
                }
                let made = self.add_if_room(own);
                proof {
                    assert(leads(old(self), &mid, &*self));
                    EGraph::lemma_grows_trans(old(self), &mid, self);
                    lemma_only_added_trans(m, mid.model(), self.model());
                    lemma_readable_trans(m, mid.model(), self.model());
                    self.lemma_safe();
                    lemma_grows_models(&mid, self);
                    lemma_own_fresh(m, mid.model(), self.model(), *pattern, subst@, own, ids@);
                    if let Some(id) = made {
                        lemma_made(&mid, self, *pattern, subst@, own, ids@, id);
                    }
                    lemma_made_small(old(self), &mid, self, *pattern, own, ids@, made);
                    assert forall|x: Id|
                        #![trigger stands_for(m, x, *pattern, subst@)]
                        tidy(m) && fixed_arity::<L>() && pattern.regular() && m.has(x)
                            && stands_for(m, x, *pattern, subst@) implies made == Some(m.root(x))
                        && old(self).same(self) by {
                        lemma_made_known(old(self), &mid, self, *pattern, subst@, own, ids@, made, x);
                    }
                }
                made
            },
        }
    }

    /// Instantiate the sub-patterns of an operator pattern.
    fn instantiate_children(&mut self, pattern: &Pattern<L>, subst: &Subst) -> (ids: Option<Vec<Id>>)
        requires
            old(self).wf(),
            pattern is Op,
            pattern.closed_by(subst@),
            pattern.fits_in(old(self).model().len()),
            bound_in(old(self).model(), subst@),
        ensures
            final(self).wf(),
            old(self).grows_into(final(self)),
            final(self).reason() == old(self).reason(),
            only_added(old(self).model(), final(self).model()),
            readable(old(self).model(), final(self).model()),
            no_new_edges(old(self).edges(), final(self).edges()),
            fresh_from(old(self).model(), final(self).model(), *pattern, subst@),
            ids is None ==> !final(self).room(),
            ids is Some ==> kids_built(
                old(self),
                final(self),
                *pattern,
                subst@,
                pattern->children@.len(),
                ids->0@,
            ),
            final(self).model().len() <= old(self).model().len() + kid_ops(
                *pattern,
                pattern->children@.len(),
            ),
            ids matches Some(made) ==> {
                &&& made@.len() == pattern->children@.len()
                &&& forall|j: int|
                    #![trigger made@[j]]
                    0 <= j < made@.len() ==> {
                        &&& final(self).model().has(made@[j])
                        &&& final(self).model().root(made@[j]) == made@[j]
                        &&& stands_for(
                            final(self).model(),
                            made@[j],
                            pattern->children@[j],
                            subst@,
                        )
                    }
            },
            pattern.regular() && ids is Some && in_range(old(self).model().len(), ids->0@) ==> old(self).same(final(self)),
            forall|kids: Seq<Id>|
                #![trigger kids_stand_for(old(self).model(), kids, *pattern, subst@)]
                tidy(old(self).model()) && fixed_arity::<L>() && pattern.regular()
                    && kids_stand_for(old(self).model(), kids, *pattern, subst@) ==> {
                    &&& ids is Some
                    &&& ids->0@ == canon_ids(old(self).model().roots, kids)
                    &&& old(self).same(final(self))
                },
        decreases pattern, 0nat,
    {
        let ghost m = self.model();
        let mut ids: Vec<Id> = Vec::new();
        proof {
            self.lemma_safe();
            self.lemma_grows_refl();
            lemma_readable_refl(m);
        }
        if let Pattern::Op { node, children } = pattern {
            let mut i: usize = 0;
            while i < children.len()
                invariant
                    i <= children@.len(),
                    pattern is Op,
                    children@ == pattern->children@,
                    decreases_to!(pattern => children@),
                    pattern.closed_by(subst@),
                    pattern.fits_in(m.len()),
                    m == old(self).model(),
                    m.shape(),
                    bound_in(m, subst@),
                    old(self).wf(),
                    self.wf(),
                    old(self).grows_into(self),
                    self.reason() == old(self).reason(),
                    only_added(m, self.model()),
                    readable(m, self.model()),
                    no_new_edges(old(self).edges(), self.edges()),
                    fresh_from(m, self.model(), *pattern, subst@),
                    ids@.len() == i,
                    kids_built(old(self), self, *pattern, subst@, i as nat, ids@),
                    self.model().len() <= m.len() + kid_ops(*pattern, i as nat),
                    forall|j: int|
                        #![trigger ids@[j]]
                        0 <= j < ids@.len() ==> {
                            &&& self.model().has(ids@[j])
                            &&& self.model().root(ids@[j]) == ids@[j]
                            &&& stands_for(
                                self.model(),
                                ids@[j],
                                pattern->children@[j],
                                subst@,
                            )
                        },
                    pattern.regular() && in_range(m.len(), ids@) ==> old(self).same(self),
                    forall|kids: Seq<Id>|
                        #![trigger kids_stand_for(m, kids, *pattern, subst@)]
                        tidy(m) && fixed_arity::<L>() && pattern.regular() && kids_stand_for(
                            m,
                            kids,
                            *pattern,
                            subst@,
                        ) ==> ids@ == canon_ids(m.roots, kids.take(i as int)) && old(self).same(
                            self,
                        ),
                decreases children@.len() - i,
            {
                let ghost before = *self;
                let ghost had = ids@;
                assert(decreases_to!(children@ => children@[i as int]));
                assert(pattern->children@[i as int].closed_by(subst@));
                assert(pattern->children@[i as int].fits_in(m.len()));
                proof {
                    before.lemma_safe();
                    lemma_fits_more(children@[i as int], m.len(), before.model().len());
                    assert forall|name: Seq<char>| #[trigger] subst@.contains_key(name) implies before.model().has(
                        subst@[name],
                    ) by {
                        assert(m.has(subst@[name]));
                    }
                }
                let made = self.instantiate(&children[i], subst);
                proof {
                    assert(kid_ops(*pattern, (i + 1) as nat) == kid_ops(*pattern, i as nat) + ops(
                        children@[i as int],
                    ));
                    lemma_kid_ops(*pattern, (i + 1) as nat, children@.len());
                    self.lemma_safe();
                    EGraph::lemma_grows_trans(old(self), &before, self);
                    lemma_only_added_trans(m, before.model(), self.model());
                    lemma_readable_trans(m, before.model(), self.model());
                    lemma_grows_models(&before, self);
                    lemma_fresh_trans(
                        m,
                        before.model(),
                        self.model(),
                        *pattern,
                        children@[i as int],
                        subst@,
                        i as int,
                    );
                }
                match made {
                    Some(id) => {
                        ids.push(id);
                        i = i + 1;
                        proof {
                            lemma_child_made(
                                old(self),
                                &before,
                                self,
                                *pattern,
                                subst@,
                                had,
                                id,
                                i as nat,
                            );
                            assert(ids@ == had.push(id));
                            assert(ids@.drop_last() =~= had && ids@.last() == id);
                            assert(leads(old(self), &before, &*self));
                            assert((i as nat - 1) as nat == (i - 1) as nat);
                        }
                    },
                    None => {
                        proof {
                            assert forall|kids: Seq<Id>|
                                #![trigger kids_stand_for(m, kids, *pattern, subst@)]
                                tidy(m) && fixed_arity::<L>() && pattern.regular()
                                    && kids_stand_for(m, kids, *pattern, subst@) implies false by {
                                lemma_child_known(
                                    old(self),
                                    &before,
                                    *pattern,
                                    subst@,
                                    kids,
                                    i as int,
                                );
                            }
                        }
                        return None;
                    },
                }
            }
            assert(i == children@.len());
            proof {
                assert forall|kids: Seq<Id>|
                    #![trigger kids_stand_for(m, kids, *pattern, subst@)]
                    tidy(m) && fixed_arity::<L>() && pattern.regular() && kids_stand_for(
                        m,
                        kids,
                        *pattern,
                        subst@,
                    ) implies ids@ == canon_ids(m.roots, kids) by {
                    assert(kids.take(i as int) =~= kids);
                }
            }
        }
        Some(ids)
    }
}

/// As many classes as the operator pattern `p` has children, each of which
/// stands for the child at its place.
pub open spec fn kids_stand_for<L: Language>(
    m: Model<L>,
    kids: Seq<Id>,
    p: Pattern<L>,
    s: Bound,
) -> bool {
    &&& kids.len() == p->children@.len()
    &&& in_range(m.len(), kids)
    &&& forall|i: int|
        #![trigger p->children@[i]]
        0 <= i < kids.len() ==> stands_for(m, kids[i], p->children@[i], s)
}

/// More ids leave room for every template.
pub proof fn lemma_fits_more<L: Language>(p: Pattern<L>, n: nat, more: nat)
    requires
        p.fits_in(n),
        n <= more,
    ensures
        p.fits_in(more),
    decreases p,
{
    if let Pattern::Op { node, children } = p {
        assert forall|j: int|
            #![trigger node.kids()[j]]
            children@.len() <= j < node.kids().len() implies node.kids()[j].at() < more by {
            assert(node.kids()[j].at() < n);
        }
        assert forall|i: int|
            #![trigger children@[i]]
            0 <= i < children@.len() implies children@[i].fits_in(more) by {
            lemma_fits_more(children@[i], n, more);
        }
    }
}

/// What growing says of the models.
pub proof fn lemma_grows_models<L: Language, N: ClassData>(a: &EGraph<L, N>, b: &EGraph<L, N>)
    requires
        a.grows_into(b),
    ensures
        coarsens(a.model().roots, b.model().roots),
        keeps_nodes(a.model(), b.model()),
        a.model().len() <= b.model().len(),
{
    let events = choose|events: Seq<HookEvent<L>>| #[trigger] a.evolved(b, events);
}

/// The class of the node that was made stands for the pattern.
proof fn lemma_made<L: Language, N: ClassData>(
    mid: &EGraph<L, N>,
    now: &EGraph<L, N>,
    p: Pattern<L>,
    s: Bound,
    own: L,
    ids: Seq<Id>,
    id: Id,
)
    requires
        mid.safe(),
        now.safe(),
        mid.grows_into(now),
        p is Op,
        own == p->node.with_kids(overlay(p->node.kids(), ids)),
        ids.len() == p->children@.len(),
        bound_in(mid.model(), s),
        mid.model().knows(own),
        forall|j: int|
            #![trigger ids[j]]
            0 <= j < ids.len() ==> mid.model().has(ids[j]) && stands_for(
                mid.model(),
                ids[j],
                p->children@[j],
                s,
            ),
        now.model().has(id),
        holds_node(now.model().roots, now.model().class(id), canon(now.model().roots, own)),
    ensures
        stands_for(now.model(), id, p, s),
{
    mid.lemma_safe();
    now.lemma_safe();
    lemma_grows_models(mid, now);
    let n = now.model();
    let children = p->children;
    let kids = overlay(p->node.kids(), ids);
    lemma_with_kids(&p->node, kids);
    let b = choose|b: int|
        0 <= b < n.class(id).len() && canon(n.roots, #[trigger] n.class(id)[b]) == canon(
            n.roots,
            own,
        );
    let found = n.class(id)[b];
    lemma_canon_eq(n.roots, found, own);
    lemma_same_op(&found, &own, &p->node);
    assert(canon_ids(n.roots, found.kids()).len() == canon_ids(n.roots, own.kids()).len());
    assert forall|i: int|
        #![trigger children@[i]]
        0 <= i < children@.len() && i < found.kids().len() implies stands_for(
        n,
        found.kids()[i],
        children@[i],
        s,
    ) by {
        assert(own.kids()[i] == ids[i]);
        assert(canon_ids(n.roots, found.kids())[i] == canon_ids(n.roots, own.kids())[i]);
        lemma_stands_grows(mid.model(), n, ids[i], children@[i], s);
        lemma_stands_class(n, ids[i], found.kids()[i], children@[i], s);
    }
    assert(found.same_op(&p->node));
}

/// If the class that was made is old, nothing was added.
proof fn lemma_made_small<L: Language, N: ClassData>(
    old: &EGraph<L, N>,
    mid: &EGraph<L, N>,
    now: &EGraph<L, N>,
    p: Pattern<L>,
    own: L,
    ids: Seq<Id>,
    made: Option<Id>,
)
    requires
        old.safe(),
        mid.safe(),
        p is Op,
        own == p->node.with_kids(overlay(p->node.kids(), ids)),
        ids.len() == p->children@.len(),
        only_added(old.model(), mid.model()),
        mid.model().knows(own),
        forall|j: int|
            #![trigger ids[j]]
            0 <= j < ids.len() ==> mid.model().has(ids[j]) && mid.model().root(ids[j]) == ids[j],
        p.regular() && in_range(old.model().len(), ids) ==> old.same(mid),
        ({
            if mid.model().looked_up(own) is Some {
                made == mid.model().looked_up(own) && mid.same(now)
            } else {
                made is Some ==> made->0.at() == mid.model().len()
            }
        }),
    ensures
        p.regular() && made is Some && made->0.at() < old.model().len() ==> old.same(now),
{
    old.lemma_safe();
    mid.lemma_safe();
    let (m, q) = (old.model(), mid.model());
    let form = canon(q.roots, own);
    if p.regular() && made is Some && made->0.at() < m.len() {
        let kids = overlay(p->node.kids(), ids);
        lemma_with_kids(&p->node, kids);
        lemma_with_kids(&own, canon_ids(q.roots, own.kids()));
        assert(q.looked_up(own) is Some);
        if exists|j: int| 0 <= j < ids.len() && (#[trigger] ids[j]).at() >= m.len() {
            let j = choose|j: int| 0 <= j < ids.len() && (#[trigger] ids[j]).at() >= m.len();
            assert(own.kids()[j] == ids[j]);
            assert(form.kids()[j] == ids[j]);
            assert(!m.memo.contains_key(form)) by {
                if m.memo.contains_key(form) {
                    assert(m.knows(form));
                    assert(form.kids()[j].at() < m.len());
                }
            }
            if q.memo.contains_key(form) {
                let v = q.memo[form];
                assert(v.at() >= m.len());
                assert(q.has(v));
                assert(q.roots[v.at()] == Id(v.at() as u32));
            } else {
                lemma_first_holder(q, form, q.len());
                let k = made->0.at();
                let a = choose|a: int|
                    0 <= a < q.nodes[k].len() && canon(q.roots, #[trigger] q.nodes[k][a]) == form;
                let held = q.nodes[k][a];
                assert(m.nodes[k] == q.nodes[k]);
                assert(m.knows(m.nodes[k][a]));
                lemma_with_kids(&held, canon_ids(q.roots, held.kids()));
                assert(canon(q.roots, held) == form);
                assert(form.kids() == canon_ids(q.roots, held.kids()));
                assert(form.kids().len() == own.kids().len());
                assert(j < held.kids().len());
                assert(held.kids()[j].at() < m.len());
                assert(form.kids()[j] == q.roots[held.kids()[j].at()]);
                assert(m.roots[held.kids()[j].at()].at() < m.len());
                assert(q.roots[held.kids()[j].at()] == m.roots[held.kids()[j].at()]);
            }
        } else {
            lemma_same_chain(old, mid, now);
        }
    }
}

pub proof fn lemma_same_chain<L: Language, N: ClassData>(
    a: &EGraph<L, N>,
    b: &EGraph<L, N>,
    c: &EGraph<L, N>,
)
    requires
        a.same(b),
        b.same(c),
    ensures
        a.same(c),
{
    assert forall|id: Id| #[trigger] c.class_data(id) == a.class_data(id) by {
        assert(b.class_data(id) == a.class_data(id));
    }
}

/// The node of a class that stands for an operator pattern.
proof fn lemma_kids_of<L: Language>(m: Model<L>, x: Id, p: Pattern<L>, s: Bound) -> (a: int)
    requires
        m.shape(),
        fixed_arity::<L>(),
        p is Op,
        p.regular(),
        m.has(x),
        stands_for(m, x, p, s),
    ensures
        0 <= a < m.class(x).len(),
        m.class(x)[a].same_op(&p->node),
        kids_stand_for(m, m.class(x)[a].kids(), p, s),
{
    let node = p->node;
    let children = p->children;
    let a = choose|a: int|
        0 <= a < m.class(x).len() && #[trigger] m.class(x)[a].same_op(&node) && forall|i: int|
            #![trigger children@[i]]
            0 <= i < children@.len() && i < m.class(x)[a].kids().len() ==> stands_for(
                m,
                m.class(x)[a].kids()[i],
                children@[i],
                s,
            );
    let enode = m.class(x)[a];
    assert(m.knows(m.nodes[m.root(x).at()][a]));
    assert forall|i: int|
        #![trigger p->children@[i]]
        0 <= i < enode.kids().len() implies stands_for(m, enode.kids()[i], p->children@[i], s) by {
        assert(children@[i] == p->children@[i]);
    }
    a
}

/// In a tidy graph, making what a class stands for finds the class.
proof fn lemma_made_known<L: Language, N: ClassData>(
    old: &EGraph<L, N>,
    mid: &EGraph<L, N>,
    now: &EGraph<L, N>,
    p: Pattern<L>,
    s: Bound,
    own: L,
    ids: Seq<Id>,
    made: Option<Id>,
    x: Id,
)
    requires
        old.safe(),
        mid.safe(),
        tidy(old.model()),
        fixed_arity::<L>(),
        p is Op,
        p.regular(),
        own == p->node.with_kids(overlay(p->node.kids(), ids)),
        old.model().has(x),
        stands_for(old.model(), x, p, s),
        forall|kids: Seq<Id>|
            #![trigger kids_stand_for(old.model(), kids, p, s)]
            kids_stand_for(old.model(), kids, p, s) ==> ids == canon_ids(old.model().roots, kids)
                && old.same(mid),
        ({
            if mid.model().looked_up(own) is Some {
                made == mid.model().looked_up(own) && mid.same(now)
            } else {
                made is Some ==> made->0.at() == mid.model().len()
            }
        }),
    ensures
        made == Some(old.model().root(x)),
        old.same(now),
{
    old.lemma_safe();
    let m = old.model();
    let node = p->node;
    let a = lemma_kids_of(m, x, p, s);
    let enode = m.class(x)[a];
    let k = m.root(x).at();
    assert(m.knows(m.nodes[k][a]));
    assert(is_canonical(m.roots, m.nodes[k][a]));
    assert(ids == canon_ids(m.roots, enode.kids()));
    assert(ids == enode.kids());
    let kids = overlay(node.kids(), ids);
    assert(kids =~= ids);
    lemma_with_kids(&node, kids);
    lemma_same_op(&own, &node, &enode);
    lemma_same_op(&enode, &node, &enode);
    lemma_canon_eq(m.roots, own, enode);
    lemma_canon_same(m.roots, enode);
    assert(canon(m.roots, own) == enode);
    assert(m.memo.contains_key(m.nodes[k][a]));
    assert(m.root(m.root(x)) == m.root(x));
    assert(Id(k as u32) == m.root(x));
    lemma_same_chain(old, mid, now);
}

/// One more child was made.
proof fn lemma_child_made<L: Language, N: ClassData>(
    old: &EGraph<L, N>,
    before: &EGraph<L, N>,
    now: &EGraph<L, N>,
    p: Pattern<L>,
    s: Bound,
    had: Seq<Id>,
    id: Id,
    i: nat,
)
    requires
        old.safe(),
        before.safe(),
        now.safe(),
        p is Op,
        0 < i <= p->children@.len(),
        had.len() == i - 1,
        bound_in(before.model(), s),
        before.grows_into(now),
        only_added(old.model(), before.model()),
        only_added(before.model(), now.model()),
        now.model().has(id),
        now.model().root(id) == id,
        stands_for(now.model(), id, p->children@[i - 1], s),
        forall|j: int|
            #![trigger had[j]]
            0 <= j < had.len() ==> before.model().has(had[j]) && before.model().root(had[j])
                == had[j] && stands_for(before.model(), had[j], p->children@[j], s),
        p->children@[i - 1].regular() && id.at() < before.model().len() ==> before.same(now),
        p.regular() && in_range(old.model().len(), had) ==> old.same(before),
        forall|x: Id|
            #![trigger stands_for(before.model(), x, p->children@[i - 1], s)]
            tidy(before.model()) && fixed_arity::<L>() && p->children@[i - 1].regular()
                && before.model().has(x) && stands_for(before.model(), x, p->children@[i - 1], s)
                ==> id == before.model().root(x) && before.same(now),
        forall|kids: Seq<Id>|
            #![trigger kids_stand_for(old.model(), kids, p, s)]
            tidy(old.model()) && fixed_arity::<L>() && p.regular() && kids_stand_for(
                old.model(),
                kids,
                p,
                s,
            ) ==> had == canon_ids(old.model().roots, kids.take(i - 1)) && old.same(before),
    ensures
        forall|j: int|
            #![trigger had.push(id)[j]]
            0 <= j < i ==> {
                &&& now.model().has(had.push(id)[j])
                &&& now.model().root(had.push(id)[j]) == had.push(id)[j]
                &&& stands_for(now.model(), had.push(id)[j], p->children@[j], s)
            },
        p.regular() && in_range(old.model().len(), had.push(id)) ==> old.same(now),
        forall|kids: Seq<Id>|
            #![trigger kids_stand_for(old.model(), kids, p, s)]
            tidy(old.model()) && fixed_arity::<L>() && p.regular() && kids_stand_for(
                old.model(),
                kids,
                p,
                s,
            ) ==> had.push(id) == canon_ids(old.model().roots, kids.take(i as int)) && old.same(
                now,
            ),
{
    old.lemma_safe();
    before.lemma_safe();
    now.lemma_safe();
    lemma_grows_models(before, now);
    let ids = had.push(id);
    let (m, n) = (old.model(), now.model());
    assert forall|j: int| #![trigger ids[j]] 0 <= j < i implies n.has(ids[j]) && n.root(ids[j])
        == ids[j] && stands_for(n, ids[j], p->children@[j], s) by {
        if j < i - 1 {
            assert(ids[j] == had[j]);
            assert(n.roots[had[j].at()] == before.model().roots[had[j].at()]);
            lemma_stands_grows(before.model(), n, had[j], p->children@[j], s);
        }
    }
    if p.regular() && in_range(m.len(), ids) {
        assert forall|j: int| #![trigger had[j]] 0 <= j < had.len() implies had[j].at()
            < m.len() by {
            assert(ids[j] == had[j]);
        }
        assert(ids[i - 1] == id);
        assert(p->children@[i - 1].regular());
        lemma_same_chain(old, before, now);
    }
    assert forall|kids: Seq<Id>|
        #![trigger kids_stand_for(m, kids, p, s)]
        tidy(m) && fixed_arity::<L>() && p.regular() && kids_stand_for(m, kids, p, s) implies ids
        == canon_ids(m.roots, kids.take(i as int)) && old.same(now) by {
        assert(old.same(before));
        assert(p->children@[i - 1].regular());
        let x = kids[i - 1];
        assert(m.has(x));
        assert(stands_for(before.model(), x, p->children@[i - 1], s));
        lemma_same_chain(old, before, now);
        let (low, high) = (canon_ids(m.roots, kids.take(i - 1)), canon_ids(m.roots, kids.take(i as int)));
        assert(ids =~= high) by {
            assert forall|j: int| 0 <= j < ids.len() implies ids[j] == high[j] by {
                if j < i - 1 {
                    assert(had[j] == low[j]);
                }
            }
        }
    }
}

/// A child that some class stands for is always found in a tidy graph.
proof fn lemma_child_known<L: Language, N: ClassData>(
    old: &EGraph<L, N>,
    before: &EGraph<L, N>,
    p: Pattern<L>,
    s: Bound,
    kids: Seq<Id>,
    i: int,
)
    requires
        p is Op,
        p.regular(),
        0 <= i < p->children@.len(),
        old.same(before),
        kids_stand_for(old.model(), kids, p, s),
    ensures
        p->children@[i].regular(),
        before.model().has(kids[i]),
        stands_for(before.model(), kids[i], p->children@[i], s),
{
    assert(p->children@[i].regular());
    assert(stands_for(old.model(), kids[i], p->children@[i], s));
}

/// What came in for a sub-pattern came in for the pattern.
proof fn lemma_fresh_trans<L: Language>(
    m: Model<L>,
    before: Model<L>,
    now: Model<L>,
    p: Pattern<L>,
    child: Pattern<L>,
    s: Bound,
    i: int,
)
    requires
        lawful::<L>(),
        before.shape(),
        now.shape(),
        coarsens(before.roots, now.roots),
        keeps_nodes(before, now),
        only_added(before, now),
        p is Op,
        0 <= i < p->children@.len(),
        child == p->children@[i],
        fresh_from(m, before, p, s),
        fresh_from(before, now, child, s),
    ensures
        fresh_from(m, now, p, s),
{
    assert forall|k: int| #![trigger now.nodes[k]] m.len() <= k < now.len() implies fresh_at(
        now,
        k,
        p,
        s,
    ) by {
        if k < before.len() {
            lemma_fresh_stays(before, now, k, p, s);
        } else {
            assert(fresh_at(now, k, child, s));
            let q = choose|q: Pattern<L>| #[trigger]
                instance(now, now.nodes[k][0], q, s) && within(child, q);
            assert(within(p->children@[i], q));
            assert(within(p, q));
        }
    }
}

/// An instance in an old row stays one.
proof fn lemma_fresh_stays<L: Language>(
    before: Model<L>,
    now: Model<L>,
    k: int,
    p: Pattern<L>,
    s: Bound,
)
    requires
        lawful::<L>(),
        before.shape(),
        now.shape(),
        coarsens(before.roots, now.roots),
        keeps_nodes(before, now),
        only_added(before, now),
        0 <= k < before.len(),
        fresh_at(before, k, p, s),
    ensures
        fresh_at(now, k, p, s),
{
    let q = choose|q: Pattern<L>| #[trigger]
        instance(before, before.nodes[k][0], q, s) && within(p, q);
    assert(now.nodes[k] == before.nodes[k]);
    assert(now.knows(now.nodes[k][0]));
    lemma_instance_grows(before, now, before.nodes[k][0], now.nodes[k][0], q, s);
    assert(instance(now, now.nodes[k][0], q, s) && within(p, q));
}

/// The e-node that was made for an operator pattern is an instance of it.
proof fn lemma_own_fresh<L: Language>(
    m: Model<L>,
    mid: Model<L>,
    now: Model<L>,
    p: Pattern<L>,
    s: Bound,
    own: L,
    ids: Seq<Id>,
)
    requires
        lawful::<L>(),
        mid.shape(),
        now.shape(),
        coarsens(mid.roots, now.roots),
        keeps_nodes(mid, now),
        only_added(mid, now),
        bound_in(mid, s),
        p is Op,
        own == p->node.with_kids(overlay(p->node.kids(), ids)),
        ids.len() == p->children@.len(),
        mid.knows(own),
        forall|j: int|
            #![trigger ids[j]]
            0 <= j < ids.len() ==> mid.has(ids[j]) && stands_for(mid, ids[j], p->children@[j], s),
        fresh_from(m, mid, p, s),
        now == mid || now == mid.added(canon(mid.roots, own)),
    ensures
        fresh_from(m, now, p, s),
{
    assert forall|k: int| #![trigger now.nodes[k]] m.len() <= k < now.len() implies fresh_at(
        now,
        k,
        p,
        s,
    ) by {
        if k < mid.len() {
            lemma_fresh_stays(mid, now, k, p, s);
        } else {
            let form = canon(mid.roots, own);
            assert(now.nodes[k] == seq![form]);
            assert(now.knows(now.nodes[k][0]));
            lemma_with_kids(&p->node, overlay(p->node.kids(), ids));
            assert(own.same_op(&p->node));
            let children = p->children;
            assert(instance(mid, own, p, s)) by {
                assert forall|j: int|
                    #![trigger children@[j]]
                    0 <= j < children@.len() && j < own.kids().len() implies stands_for(
                    mid,
                    own.kids()[j],
                    children@[j],
                    s,
                ) by {
                    assert(own.kids()[j] == ids[j]);
                }
            }
            lemma_canon_twice(mid.roots, own);
            assert(canon(now.roots, form) == canon(now.roots, own)) by {
                assert(canon_ids(now.roots, form.kids()) =~= canon_ids(mid.roots, form.kids()));
                assert(canon_ids(now.roots, own.kids()) =~= canon_ids(mid.roots, own.kids()));
            }
            lemma_instance_grows(mid, now, own, form, p, s);
            assert(within(p, p));
            assert(instance(now, now.nodes[k][0], p, s));
        }
    }
}

} // verus!
