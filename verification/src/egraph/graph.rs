//! Core operations: ids, adding e-nodes, merging classes.

use super::forest::{
    is_forest, lemma_forest_empty, lemma_forest_grows, lemma_forest_new_id, pairs_equal, with_edge, Reason,
};
use super::hooks::{
    events_fit, lemma_notified_concat, lemma_replay_concat, notified, replay, replay_one, Hook,
    HookEvent,
};
use super::lang::{copy_node, lawful, lemma_key, texts, Id, Language};
use super::model::{
    canon, canon_ids, coarsens, holds_node, in_range, lemma_canon_coarsens, lemma_canon_same,
    lemma_canon_twice, lemma_coarsens_trans, lemma_looked_up, Model,
};
use super::steps::{
    addable, lemma_added, lemma_added_keeps, lemma_added_shape, lemma_merged, lemma_merged_keeps,
    lemma_merged_shape, lemma_with_entries,
};
use super::unionfind::UnionFind;
use super::{
    extends, keeps_nodes, row_edges, row_nodes, row_parents, Analysis, ClassData, EClass, EGraph,
    Justification,
};
use std::collections::HashMap;
use vstd::prelude::*;

verus! {

/// `kids` with the first of them replaced by `ids`.
pub open spec fn overlay(kids: Seq<Id>, ids: Seq<Id>) -> Seq<Id> {
    Seq::new(
        kids.len(),
        |i: int|
            if i < ids.len() {
                ids[i]
            } else {
                kids[i]
            },
    )
}

/// Replace the children of `node` by `ids`, as far as both go.
pub(crate) fn write_children<L: Language>(node: &mut L, ids: &Vec<Id>)
    ensures
        *final(node) == old(node).with_kids(overlay(old(node).kids(), ids@)),
{
    let ghost kids = node.kids();
    let slots = node.children_mut();
    let mut i: usize = 0;
    while i < slots.len() && i < ids.len()
        invariant
            slots@.len() == kids.len(),
            i <= slots@.len(),
            i <= ids.len(),
            slots@ == overlay(kids, ids@.take(i as int)),
            after_borrow(*node) == old(node).with_kids(final(slots)@),
        decreases ids.len() - i,
    {
        slots[i] = ids[i];
        i = i + 1;
        assert(slots@ =~= overlay(kids, ids@.take(i as int)));
    }
    assert(slots@ =~= overlay(kids, ids@));
}

/// Every hook was told of one more event.
spec fn told_up_to<L: Language>(
    before: Seq<Box<dyn Hook<L>>>,
    after: Seq<Box<dyn Hook<L>>>,
    event: HookEvent<L>,
    upto: int,
) -> bool {
    &&& before.len() == after.len()
    &&& forall|i: int| #![trigger after[i]] upto <= i < before.len() ==> after[i] == before[i]
    &&& forall|i: int, log: Seq<HookEvent<L>>|
        #![trigger before[i].heard(log)]
        0 <= i < upto && before[i].heard(log) ==> after[i].heard(log.push(event))
}

proof fn lemma_told_all<L: Language>(
    before: Seq<Box<dyn Hook<L>>>,
    after: Seq<Box<dyn Hook<L>>>,
    event: HookEvent<L>,
)
    requires
        told_up_to(before, after, event, before.len() as int),
    ensures
        notified(before, after, seq![event]),
{
    assert forall|i: int, log: Seq<HookEvent<L>>|
        #![trigger before[i].heard(log)]
        0 <= i < before.len() && before[i].heard(log) implies after[i].heard(
        log + seq![event],
    ) by {
        assert(log + seq![event] =~= log.push(event));
    }
}

/// Which of two classes survives a merge: the larger one, and the first if
/// both are equally large.
pub open spec fn survivor<L: Language>(m: Model<L>, a: Id, b: Id) -> Id {
    if m.nodes[a.at()].len() + m.parents[a.at()].len() < m.nodes[b.at()].len()
        + m.parents[b.at()].len() {
        b
    } else {
        a
    }
}

/// Which of two classes is absorbed by a merge.
pub open spec fn absorbed<L: Language>(m: Model<L>, a: Id, b: Id) -> Id {
    if survivor(m, a, b) == a {
        b
    } else {
        a
    }
}

impl<L: Language, N: ClassData> EGraph<L, N> {
    /// Nothing that the contracts speak of differs.
    pub open spec fn same(&self, new: &Self) -> bool {
        &&& new.model() == self.model()
        &&& new.edges() == self.edges()
        &&& new.terms() == self.terms()
        &&& new.watchers() == self.watchers()
        &&& new.stale() == self.stale()
        &&& new.reason() == self.reason()
        &&& forall|id: Id| #[trigger] new.class_data(id) == self.class_data(id)
    }

    /// Another id can be handed out.
    pub open spec fn room(&self) -> bool {
        self.model().len() <= u32::MAX
    }

    /// What always holds of the tables.
    pub proof fn lemma_safe(&self)
        requires
            self.safe(),
        ensures
            lawful::<L>(),
            self.model().shape(),
            is_forest(self.model().roots, self.edges()),
            self.terms().len() == self.model().len(),
            self.edges().len() == self.model().len(),
            in_range(self.model().len(), self.stale()),
            pairs_equal(self.model().roots, self.reason()),
    {
        reveal(is_forest);
    }

    /// An unchanged graph evolved by no event.
    pub proof fn lemma_same_evolved(&self, new: &Self)
        requires
            self.wf(),
            self.same(new),
        ensures
            self.evolved(new, Seq::empty()),
    {
        self.lemma_grows_refl();
    }

    /// Evolving twice is evolving by all of the events.
    pub proof fn lemma_evolved_trans(
        a: &Self,
        b: &Self,
        c: &Self,
        first: Seq<HookEvent<L>>,
        second: Seq<HookEvent<L>>,
    )
        requires
            a.safe(),
            b.safe(),
            c.safe(),
            a.evolved(b, first),
            b.evolved(c, second),
        ensures
            a.evolved(c, first + second),
            a.grows_into(c),
    {
        a.lemma_safe();
        b.lemma_safe();
        c.lemma_safe();
        let (ma, mb, mc) = (a.model(), b.model(), c.model());
        lemma_replay_concat(ma.roots, first, second);
        lemma_coarsens_trans(ma.roots, mb.roots, mc.roots);
        lemma_notified_concat(a.watchers(), b.watchers(), c.watchers(), first, second);
        assert(keeps_nodes(ma, mc)) by {
            lemma_keeps_nodes_trans(ma, mb, mc);
        }
        assert forall|i: int| #![trigger a.edges()[i]] 0 <= i < a.edges().len() implies extends(
            a.edges()[i],
            c.edges()[i],
        ) by {
            let (x, y, z) = (a.edges()[i], b.edges()[i], c.edges()[i]);
            assert(extends(x, y));
            assert(extends(y, z));
            assert forall|e: int| #![trigger z[e]] 0 <= e < x.len() implies z[e] == x[e] by {
                assert(y[e] == x[e]);
            }
        }
        assert forall|i: int|
            #![trigger c.terms()[i]]
            0 <= i < a.terms().len() implies c.terms()[i] == a.terms()[i] by {
            assert(b.terms()[i] == a.terms()[i]);
        }
        assert(a.evolved(c, first + second));
    }

    /// Growing twice is growing.
    pub proof fn lemma_grows_trans(a: &Self, b: &Self, c: &Self)
        requires
            a.safe(),
            b.safe(),
            c.safe(),
            a.grows_into(b),
            b.grows_into(c),
        ensures
            a.grows_into(c),
    {
        let first = choose|events: Seq<HookEvent<L>>| #[trigger] a.evolved(b, events);
        let second = choose|events: Seq<HookEvent<L>>| #[trigger] b.evolved(c, events);
        Self::lemma_evolved_trans(a, b, c, first, second);
    }

    /// Growing by some events after growing is growing.
    pub proof fn lemma_grows_trans_one(&self, start: &Self, new: &Self, events: Seq<HookEvent<L>>)
        requires
            start.safe(),
            self.safe(),
            new.safe(),
            start.grows_into(self),
            self.evolved(new, events),
        ensures
            start.grows_into(new),
    {
        assert(self.grows_into(new));
        Self::lemma_grows_trans(start, self, new);
    }

    /// A step without events.
    pub proof fn lemma_quiet(&self, new: &Self)
        requires
            new.model().roots == self.model().roots,
            new.edges() == self.edges(),
            new.terms() == self.terms(),
            new.watchers() == self.watchers(),
            keeps_nodes(self.model(), new.model()),
            self.settled() ==> new.settled(),
        ensures
            self.evolved(new, Seq::empty()),
            self.grows_into(new),
    {
        let none = Seq::<HookEvent<L>>::empty();
        assert(forall|log: Seq<HookEvent<L>>| #[trigger] (log + none) =~= log);
        assert(self.evolved(new, none));
    }

    /// The number of ids handed out so far.
    pub fn id_count(&self) -> (n: usize)
        ensures
            n == self.model().len(),
    {
        self.union_find.len()
    }

    /// Canonical class id for `id`, without path compression. Exposed so that
    /// other tools (e.g. visualization) can group nodes by class.
    pub fn canonical_id(&self, id: Id) -> (root: Id)
        requires
            self.wf(),
            self.model().has(id),
        ensures
            root == self.model().root(id),
    {
        self.find_immut(id)
    }

    /// Read-only find (no compression).
    pub(crate) fn find_immut(&self, id: Id) -> (root: Id)
        requires
            self.safe(),
            self.model().has(id),
        ensures
            root == self.model().root(id),
            self.model().has(root),
            self.model().root(root) == root,
    {
        proof {
            self.lemma_safe();
        }
        self.union_find.find_immut(id)
    }

    /// Canonical representative of `id`, with path halving.
    pub fn find(&mut self, id: Id) -> (root: Id)
        requires
            old(self).safe(),
            old(self).model().has(id),
        ensures
            final(self).safe(),
            old(self).same(final(self)),
            root == old(self).model().root(id),
            old(self).model().has(root),
            old(self).model().root(root) == root,
    {
        proof {
            self.lemma_safe();
        }
        let root = self.union_find.find(id);
        assert(self.model() == old(self).model());
        root
    }

    /// Rewrite a node's children to their canonical class ids.
    pub(crate) fn canonicalize(&mut self, node: &mut L)
        requires
            old(self).safe(),
            old(self).model().knows(*old(node)),
        ensures
            final(self).safe(),
            old(self).same(final(self)),
            *final(node) == canon(old(self).model().roots, *old(node)),
    {
        let mut ids: Vec<Id> = Vec::new();
        let mut i: usize = 0;
        let ghost roots = self.model().roots;
        while i < node.children().len()
            invariant
                self.safe(),
                old(self).same(self),
                self.model().roots == roots,
                self.model().knows(*node),
                i <= node.kids().len(),
                ids@ == canon_ids(roots, node.kids().take(i as int)),
            decreases node.kids().len() - i,
        {
            let child = node.children()[i];
            assert(node.kids()[i as int] == child);
            let root = self.find(child);
            ids.push(root);
            i = i + 1;
            assert(ids@ =~= canon_ids(roots, node.kids().take(i as int)));
        }
        assert(overlay(node.kids(), ids@) =~= canon_ids(roots, node.kids()));
        write_children(node, &ids);
    }

    /// Fire `on_add` on every registered hook.
    fn fire_on_add(&mut self, id: Id, node: &L)
        ensures
            notified(
                old(self).watchers(),
                final(self).watchers(),
                seq![HookEvent::Added { id, node: *node }],
            ),
            final(self).watchers() == final(self).hooks@,
            *final(self) == (EGraph { hooks: final(self).hooks, ..*old(self) }),
    {
        let ghost event = HookEvent::Added { id, node: *node };
        let mut i: usize = 0;
        while i < self.hooks.len()
            invariant
                i <= self.hooks.len(),
                told_up_to(old(self).hooks@, self.hooks@, event, i as int),
                event == (HookEvent::Added { id, node: *node }),
                *self == (EGraph { hooks: self.hooks, ..*old(self) }),
            decreases self.hooks.len() - i,
        {
            let ghost before = self.hooks@;
            self.hooks[i].on_add(id, node);
            assert(before[i as int] == old(self).hooks@[i as int]);
            i = i + 1;
        }
        proof {
            lemma_told_all(old(self).hooks@, self.hooks@, event);
        }
    }

    /// Fire `on_merge` on every registered hook.
    fn fire_on_merge(&mut self, survivor: Id, absorbed: Id)
        ensures
            notified(
                old(self).watchers(),
                final(self).watchers(),
                seq![HookEvent::Merged { survivor, absorbed }],
            ),
            final(self).watchers() == final(self).hooks@,
            *final(self) == (EGraph { hooks: final(self).hooks, ..*old(self) }),
    {
        let ghost event = HookEvent::<L>::Merged { survivor, absorbed };
        let mut i: usize = 0;
        while i < self.hooks.len()
            invariant
                i <= self.hooks.len(),
                told_up_to(old(self).hooks@, self.hooks@, event, i as int),
                event == (HookEvent::<L>::Merged { survivor, absorbed }),
                *self == (EGraph { hooks: self.hooks, ..*old(self) }),
            decreases self.hooks.len() - i,
        {
            let ghost before = self.hooks@;
            self.hooks[i].on_merge(survivor, absorbed);
            assert(before[i as int] == old(self).hooks@[i as int]);
            i = i + 1;
        }
        proof {
            lemma_told_all(old(self).hooks@, self.hooks@, event);
        }
    }

    /// Register a [`Hook`] to observe future `add` and `merge` events. Several
    /// hooks may be registered; each is notified of every event.
    pub fn add_hook(&mut self, hook: Box<dyn Hook<L>>)
        requires
            old(self).wf(),
        ensures
            final(self).wf(),
            final(self).model() == old(self).model(),
            final(self).edges() == old(self).edges(),
            final(self).terms() == old(self).terms(),
            final(self).stale() == old(self).stale(),
            final(self).reason() == old(self).reason(),
            forall|id: Id| #[trigger] final(self).class_data(id) == old(self).class_data(id),
            final(self).watchers() == old(self).watchers().push(hook),
    {
        self.hooks.push(hook);
        assert(self.model() == old(self).model());
        assert(self.edges() == old(self).edges());
    }
}

/// Keeping nodes twice is keeping nodes.
pub proof fn lemma_keeps_nodes_trans<L: Language>(a: Model<L>, b: Model<L>, c: Model<L>)
    requires
        lawful::<L>(),
        a.shape(),
        b.shape(),
        c.shape(),
        coarsens(a.roots, b.roots),
        coarsens(b.roots, c.roots),
        keeps_nodes(a, b),
        keeps_nodes(b, c),
    ensures
        keeps_nodes(a, c),
{
    assert forall|k: int, x: int|
        #![trigger a.nodes[k][x]]
        0 <= k < a.len() && 0 <= x < a.nodes[k].len() implies holds_node(
        c.roots,
        c.class(Id(k as u32)),
        canon(c.roots, a.nodes[k][x]),
    ) by {
        let node = a.nodes[k][x];
        let id = Id(k as u32);
        assert(a.knows(a.nodes[k][x]));
        let r = b.root(id);
        assert(b.root(r) == r);
        let y = choose|y: int|
            0 <= y < b.class(id).len() && canon(b.roots, #[trigger] b.class(id)[y]) == canon(
                b.roots,
                node,
            );
        let mid = b.nodes[r.at()][y];
        assert(b.knows(b.nodes[r.at()][y]));
        assert(holds_node(c.roots, c.class(Id(r.at() as u32)), canon(c.roots, mid)));
        assert(b.roots[k] == b.roots[r.at()]);
        assert(c.roots[k] == c.roots[r.at()]);
        lemma_canon_coarsens(b.roots, c.roots, mid, node);
    }
}

/// The state after the ids `a` and `b` of two different classes were merged.
pub open spec fn merge_done<L: Language, N: ClassData>(
    old: &EGraph<L, N>,
    new: &EGraph<L, N>,
    a: Id,
    b: Id,
) -> bool {
    merged_for(old, new, a, b, old.reason()) && new.reason() == old.reason()
}

/// The ids `a` and `b` of two different classes were merged for `reason`.
pub open spec fn merged_for<L: Language, N: ClassData>(
    old: &EGraph<L, N>,
    new: &EGraph<L, N>,
    a: Id,
    b: Id,
    reason: Reason,
) -> bool {
    let m = old.model();
    let s = survivor(m, m.root(a), m.root(b));
    let t = absorbed(m, m.root(a), m.root(b));
    &&& new.model() == m.merged(s, t)
    &&& new.edges() == with_edge(old.edges(), a, b, reason)
    &&& new.terms() == old.terms()
    &&& exists|changed: bool|
        {
            &&& #[trigger] N::joined(
                &old.class_data(s),
                &old.class_data(t),
                &new.class_data(s),
                changed,
            )
            &&& new.stale() == if changed {
                old.stale().push(s)
            } else {
                old.stale()
            }
        }
    &&& notified(
        old.watchers(),
        new.watchers(),
        seq![HookEvent::Merged { survivor: s, absorbed: t }],
    )
    &&& forall|id: Id|
        #![trigger new.class_data(id)]
        m.has(id) && id != s && id != t ==> new.class_data(id) == old.class_data(id)
    &&& N::covers(&new.class_data(s), &old.class_data(t))
    &&& forall|other: &N::Data| #[trigger]
        N::covers(&old.class_data(s), other) ==> N::covers(&new.class_data(s), other)
}

impl<L: Language, N: Analysis<L>> EGraph<L, N> {
    /// Merge the classes of `a` and `b`, whatever state the parent lists are
    /// in.
    pub(crate) fn merge_step(&mut self, a: Id, b: Id) -> (kept: Id)
        requires
            old(self).safe(),
            old(self).model().has(a),
            old(self).model().has(b),
        ensures
            final(self).safe(),
            old(self).model().root(a) == old(self).model().root(b) ==> kept
                == old(self).model().root(a) && old(self).same(final(self)),
            old(self).model().root(a) != old(self).model().root(b) ==> {
                &&& kept == survivor(
                    old(self).model(),
                    old(self).model().root(a),
                    old(self).model().root(b),
                )
                &&& merge_done(old(self), final(self), a, b)
            },
    {
        // Raw ids (before canonicalization) become an edge in the proof forest.
        let (raw_a, raw_b) = (a, b);
        let mut a = self.find(a);
        let ghost between = *self;
        let mut b = self.find(b);
        if a == b {
            assert forall|id: Id| #[trigger] self.class_data(id) == old(self).class_data(id) by {
                assert(between.class_data(id) == old(self).class_data(id));
            }
            return a;
        }
        let ghost m = self.model();
        let ghost first = *self;
        proof {
            self.lemma_safe();
        }
        // Record why these two terms were made equal, for later explanation.
        let reason = self.current_reason.clone();
        self.explain_edges[raw_a.0 as usize].push((raw_b, reason.clone()));
        self.explain_edges[raw_b.0 as usize].push((raw_a, reason));
        proof {
            let more = with_edge(first.edges(), raw_a, raw_b, first.reason());
            assert(self.edges() =~= more) by {
                assert forall|i: int| 0 <= i < more.len() implies self.edges()[i] =~= more[i] by {
                    assert(more[i] =~= row_edges(self.explain_edges@[i]@));
                }
            }
        }
        // Merge the smaller class into the larger to keep trees flat.
        let a_len = self.class_size(a);
        let b_len = self.class_size(b);
        if a_len < b_len {
            std::mem::swap(&mut a, &mut b);
        }
        proof {
            lemma_forest_grows(m.roots, first.edges(), raw_a, raw_b, first.reason(), a, b);
            lemma_merged_shape(m, a, b);
        }
        // b is absorbed into a.
        self.union_find.link(a, b);
        let ghost gone = self.classes@[b.at()];
        let taken = self.classes[b.0 as usize].take();
        let mut b_class = taken.unwrap();
        let ghost a_old = self.classes@[a.at()];
        let a_class = self.classes[a.0 as usize].as_mut().unwrap();
        a_class.nodes.append(&mut b_class.nodes);
        a_class.parents.append(&mut b_class.parents);
        // Combine analysis data; if it changed, schedule `modify` for `a`.
        let ghost a_data = self.classes@[a.at()]->0.data;
        let ghost b_data = b_class.data;
        proof {
            assert(old(self).class_data(a) == between.class_data(a));
            assert(old(self).class_data(b) == between.class_data(b));
            assert(first.class_data(a) == between.class_data(a));
            assert(first.class_data(b) == between.class_data(b));
            assert(a_data == old(self).class_data(a));
            assert(b_data == old(self).class_data(b));
        }
        let changed = self.analysis.merge(
            &mut self.classes[a.0 as usize].as_mut().unwrap().data,
            b_class.data,
        );
        proof {
            assert(N::covers(&self.classes@[a.at()]->0.data, &b_data));
            assert forall|other: &N::Data| #[trigger] N::covers(&a_data, other) implies N::covers(
                &self.classes@[a.at()]->0.data,
                other,
            ) by {}
        }
        if changed {
            self.analysis_pending.push(a);
        }
        // a's parents may now be congruent with others: revisit in rebuild.
        self.pending.push(a);
        proof {
            let n = m.merged(a, b);
            assert(self.model().nodes =~= n.nodes);
            assert(self.model().parents =~= n.parents);
            assert(self.model().roots =~= n.roots);
            assert(self.model().memo =~= n.memo);
            assert(self.model().pending =~= n.pending);
            assert(self.model() == n);
        }
        // Notify observers: class `b` was absorbed into surviving class `a`.
        let ghost quiet = *self;
        self.fire_on_merge(a, b);
        assert(self.model() == quiet.model());
        assert(self.edges() == quiet.edges());
        assert(quiet.watchers() == old(self).watchers());
        assert(self.terms() == old(self).terms());
        assert(self.class_data(a) == quiet.class_data(a));
        assert forall|id: Id| m.has(id) && id != a && id != b implies #[trigger] self.class_data(id)
            == old(self).class_data(id) by {
            assert(first.class_data(id) == between.class_data(id));
            assert(between.class_data(id) == old(self).class_data(id));
        }
        a
    }

    /// How much a class holds, for deciding which class absorbs the other.
    fn class_size(&self, id: Id) -> (size: u128)
        requires
            self.classes@.len() == self.union_find@.len(),
            id.at() < self.classes@.len(),
            self.classes@[id.at()] is Some,
        ensures
            size == self.model().nodes[id.at()].len() + self.model().parents[id.at()].len(),
    {
        let class = self.classes[id.0 as usize].as_ref().unwrap();
        class.nodes.len() as u128 + class.parents.len() as u128
    }
}

/// The event of a merge.
pub open spec fn merge_event<L: Language>(m: Model<L>, a: Id, b: Id) -> HookEvent<L> {
    HookEvent::Merged {
        survivor: survivor(m, m.root(a), m.root(b)),
        absorbed: absorbed(m, m.root(a), m.root(b)),
    }
}

/// A merge of two classes evolves the graph by one event.
pub proof fn lemma_merge_evolved<L: Language, N: ClassData>(
    old: &EGraph<L, N>,
    new: &EGraph<L, N>,
    a: Id,
    b: Id,
)
    requires
        old.safe(),
        new.safe(),
        old.model().has(a),
        old.model().has(b),
        old.model().root(a) != old.model().root(b),
        merge_done(old, new, a, b),
    ensures
        old.evolved(new, seq![merge_event(old.model(), a, b)]),
{
    old.lemma_safe();
    new.lemma_safe();
    let m = old.model();
    let s = survivor(m, m.root(a), m.root(b));
    let t = absorbed(m, m.root(a), m.root(b));
    let event = merge_event(m, a, b);
    let events = seq![event];
    assert(m.root(m.root(a)) == m.root(a));
    assert(m.root(m.root(b)) == m.root(b));
    lemma_merged_shape(m, s, t);
    assert(events.drop_last() =~= Seq::empty());
    assert(replay(m.roots, events.drop_last()) == m.roots);
    assert(events_fit(m.roots, events.drop_last()));
    assert(replay(m.roots, events) == replay_one(m.roots, event));
    assert forall|k: int, x: int|
        #![trigger m.nodes[k][x]]
        0 <= k < m.len() && 0 <= x < m.nodes[k].len() implies holds_node(
        new.model().roots,
        new.model().class(Id(k as u32)),
        canon(new.model().roots, m.nodes[k][x]),
    ) by {
        lemma_merged_keeps(m, s, t, k, x);
    }
}

impl<L: Language, N: Analysis<L>> EGraph<L, N> {
    /// Merge the classes of `a` and `b`; returns the surviving canonical id.
    /// Congruence repair is deferred to `rebuild`.
    pub fn merge(&mut self, a: Id, b: Id) -> (kept: Id)
        requires
            old(self).wf(),
            old(self).model().has(a),
            old(self).model().has(b),
        ensures
            final(self).wf(),
            old(self).model().root(a) == old(self).model().root(b) ==> {
                &&& kept == old(self).model().root(a)
                &&& old(self).same(final(self))
                &&& old(self).evolved(final(self), Seq::empty())
            },
            old(self).model().root(a) != old(self).model().root(b) ==> {
                &&& kept == survivor(
                    old(self).model(),
                    old(self).model().root(a),
                    old(self).model().root(b),
                )
                &&& merge_done(old(self), final(self), a, b)
                &&& old(self).evolved(final(self), seq![merge_event(old(self).model(), a, b)])
            },
            final(self).model().root(a) == kept,
            final(self).model().root(b) == kept,
            old(self).grows_into(final(self)),
    {
        let ghost m = self.model();
        proof {
            self.lemma_safe();
            assert(m.root(m.root(a)) == m.root(a));
            assert(m.root(m.root(b)) == m.root(b));
        }
        let kept = self.merge_step(a, b);
        proof {
            if m.root(a) == m.root(b) {
                old(self).lemma_same_evolved(self);
            } else {
                let s = survivor(m, m.root(a), m.root(b));
                let t = absorbed(m, m.root(a), m.root(b));
                lemma_merged(m, s, t, Id(0), Seq::empty(), Seq::empty());
                lemma_merge_evolved(old(self), self, a, b);
            }
        }
        kept
    }

    /// Classic union-find naming alias for [`merge`](Self::merge).
    pub fn union(&mut self, a: Id, b: Id) -> (kept: Id)
        requires
            old(self).wf(),
            old(self).model().has(a),
            old(self).model().has(b),
        ensures
            final(self).wf(),
            old(self).model().root(a) == old(self).model().root(b) ==> {
                &&& kept == old(self).model().root(a)
                &&& old(self).same(final(self))
                &&& old(self).evolved(final(self), Seq::empty())
            },
            old(self).model().root(a) != old(self).model().root(b) ==> {
                &&& kept == survivor(
                    old(self).model(),
                    old(self).model().root(a),
                    old(self).model().root(b),
                )
                &&& merge_done(old(self), final(self), a, b)
                &&& old(self).evolved(final(self), seq![merge_event(old(self).model(), a, b)])
            },
            final(self).model().root(a) == kept,
            final(self).model().root(b) == kept,
            old(self).grows_into(final(self)),
    {
        self.merge(a, b)
    }
}

impl<L: Language, N: ClassData> Default for EClass<L, N> {
    /// A class without e-nodes.
    fn default() -> (class: Self)
        ensures
            class.members() == Seq::<L>::empty(),
            class.entries() == Seq::<(L, Id)>::empty(),
    {
        EClass { nodes: Vec::new(), parents: Vec::new(), data: N::Data::default() }
    }
}

/// The frozen terms of the children of `node`.
pub open spec fn kid_terms<L: Language>(terms: Seq<Seq<char>>, node: L) -> Seq<Seq<char>> {
    Seq::new(node.kids().len(), |j: int| terms[node.kids()[j].at()])
}

/// The state after the canonical e-node `node` got a class of its own.
pub open spec fn add_done<L: Language, N: ClassData>(
    old: &EGraph<L, N>,
    new: &EGraph<L, N>,
    node: L,
) -> bool {
    let m = old.model();
    let id = Id(m.len() as u32);
    &&& new.model() == m.added(node)
    &&& new.edges() == old.edges().push(Seq::empty())
    &&& new.terms() == old.terms().push(node.rendered(kid_terms(old.terms(), node)))
    &&& new.reason() == old.reason()
    &&& new.stale() == old.stale().push(id)
    &&& notified(old.watchers(), new.watchers(), seq![HookEvent::Added { id, node }])
    &&& forall|k: Id|
        #![trigger new.class_data(k)]
        m.has(k) ==> new.class_data(k) == old.class_data(k)
}

impl<L: Language, N: ClassData> EGraph<L, N> {
    /// Hand out the next id, with an empty class.
    fn make_set(&mut self) -> (id: Id)
        requires
            old(self).union_find.wf(),
            old(self).union_find@.len() <= u32::MAX,
        ensures
            id == Id(old(self).union_find@.len() as u32),
            final(self).union_find.wf(),
            final(self).union_find@ == old(self).union_find@.push(id),
            final(self).classes@.len() == old(self).classes@.len() + 1,
            extends(old(self).classes@, final(self).classes@),
            final(self).classes@.last() is Some,
            row_nodes(final(self).classes@.last()) == Seq::<L>::empty(),
            row_parents(final(self).classes@.last()) == Seq::<(L, Id)>::empty(),
            final(self).edges() == old(self).edges().push(Seq::empty()),
            *final(self) == (EGraph {
                union_find: final(self).union_find,
                classes: final(self).classes,
                explain_edges: final(self).explain_edges,
                ..*old(self)
            }),
    {
        let id = self.union_find.make_set();
        self.classes.push(Some(EClass::default()));
        self.explain_edges.push(Vec::new());
        proof {
            let more = old(self).edges().push(Seq::empty());
            assert forall|i: int| 0 <= i < more.len() implies self.edges()[i] =~= more[i] by {
                if i < old(self).edges().len() {
                    assert(self.explain_edges@[i] == old(self).explain_edges@[i]);
                }
            }
            assert(self.edges() =~= more);
        }
        id
    }

    /// Register `node` as a parent of each of its children.
    fn register(&mut self, node: &L, owner: Id)
        requires
            lawful::<L>(),
            in_range(old(self).classes@.len(), node.kids()),
            old(self).classes@.len() <= u32::MAX + 1,
            forall|j: int|
                #![trigger node.kids()[j]]
                0 <= j < node.kids().len() ==> old(self).classes@[node.kids()[j].at()] is Some,
        ensures
            *final(self) == (EGraph { classes: final(self).classes, ..*old(self) }),
            final(self).model().parents == Model::with_entries(
                old(self).model().parents,
                *node,
                owner,
                node.kids().len(),
            ),
            final(self).model().nodes == old(self).model().nodes,
            final(self).classes@.len() == old(self).classes@.len(),
            forall|i: int|
                #![trigger final(self).classes@[i]]
                0 <= i < final(self).classes@.len() ==> {
                    &&& final(self).classes@[i] is Some <==> old(self).classes@[i] is Some
                    &&& final(self).classes@[i] is Some ==> final(self).classes@[i]->0.data
                        == old(self).classes@[i]->0.data
                },
    {
        let ghost start = self.model().parents;
        let mut j: usize = 0;
        while j < node.children().len()
            invariant
                lawful::<L>(),
                j <= node.kids().len(),
                in_range(self.classes@.len(), node.kids()),
                self.classes@.len() == old(self).classes@.len(),
                *self == (EGraph { classes: self.classes, ..*old(self) }),
                start == old(self).model().parents,
                start.len() == self.classes@.len(),
                self.model().parents == Model::with_entries(start, *node, owner, j as nat),
                self.model().nodes == old(self).model().nodes,
                forall|i: int|
                    #![trigger node.kids()[i]]
                    0 <= i < node.kids().len() ==> old(self).classes@[node.kids()[i].at()] is Some,
                forall|i: int|
                    #![trigger self.classes@[i]]
                    0 <= i < self.classes@.len() ==> {
                        &&& self.classes@[i] is Some <==> old(self).classes@[i] is Some
                        &&& self.classes@[i] is Some ==> self.classes@[i]->0.data
                            == old(self).classes@[i]->0.data
                    },
            decreases node.kids().len() - j,
        {
            let child = node.children()[j];
            assert(node.kids()[j as int] == child);
            let ghost before = *self;
            proof {
                lemma_with_entries(start, *node, owner, j as nat);
            }
            let copy = copy_node(node);
            let class = self.classes[child.0 as usize].as_mut().unwrap();
            class.parents.push((copy, owner));
            j = j + 1;
            proof {
                let rest = before.model().parents;
                let next = rest.update(child.at(), rest[child.at()].push((*node, owner)));
                assert(next == Model::with_entries(start, *node, owner, j as nat));
                assert(self.model().parents =~= next);
                assert(self.model().nodes =~= before.model().nodes);
            }
        }
    }

    /// The text of the canonical e-node `node` over the frozen terms of its
    /// children.
    fn frozen_term(&self, node: &L) -> (text: String)
        requires
            in_range(self.term_snapshot@.len(), node.kids()),
        ensures
            text@ == node.rendered(kid_terms(self.terms(), *node)),
    {
        let mut parts: Vec<String> = Vec::new();
        let mut j: usize = 0;
        while j < node.children().len()
            invariant
                j <= node.kids().len(),
                in_range(self.term_snapshot@.len(), node.kids()),
                parts@.len() == j,
                forall|i: int|
                    #![trigger parts@[i]]
                    0 <= i < j ==> parts@[i]@ == self.terms()[node.kids()[i].at()],
            decreases node.kids().len() - j,
        {
            let child = node.children()[j];
            assert(node.kids()[j as int] == child);
            let part = self.term_snapshot[child.0 as usize].clone();
            parts.push(part);
            j = j + 1;
        }
        assert(texts(parts@) =~= kid_terms(self.terms(), *node));
        node.display(parts.as_slice())
    }
}

/// A new e-node evolves the graph by one event.
pub proof fn lemma_add_evolved<L: Language, N: ClassData>(
    old: &EGraph<L, N>,
    new: &EGraph<L, N>,
    node: L,
)
    requires
        old.safe(),
        new.safe(),
        addable(old.model(), node),
        add_done(old, new, node),
    ensures
        old.evolved(new, seq![HookEvent::Added { id: Id(old.model().len() as u32), node }]),
{
    old.lemma_safe();
    new.lemma_safe();
    let m = old.model();
    let event = HookEvent::Added { id: Id(m.len() as u32), node };
    let events = seq![event];
    lemma_added_shape(m, node);
    assert(events.drop_last() =~= Seq::empty());
    assert(replay(m.roots, events.drop_last()) == m.roots);
    assert(events_fit(m.roots, events.drop_last()));
    assert(replay(m.roots, events) == replay_one(m.roots, event));
    assert forall|k: int, x: int|
        #![trigger m.nodes[k][x]]
        0 <= k < m.len() && 0 <= x < m.nodes[k].len() implies holds_node(
        new.model().roots,
        new.model().class(Id(k as u32)),
        canon(new.model().roots, m.nodes[k][x]),
    ) by {
        lemma_added_keeps(m, node, k, x);
    }
}

impl<L: Language, N: Analysis<L>> EGraph<L, N> {
    /// Add an e-node, returning the e-class it belongs to. A node that was
    /// added before is not added again, so that structurally identical nodes
    /// share a class.
    pub fn add(&mut self, node: L) -> (id: Id)
        requires
            old(self).wf(),
            old(self).model().knows(node),
            old(self).room() || old(self).model().has_node(node),
        ensures
            final(self).wf(),
            ({
                let form = canon(old(self).model().roots, node);
                if let Some(known) = old(self).model().looked_up(node) {
                    &&& id == known
                    &&& old(self).same(final(self))
                    &&& old(self).evolved(final(self), Seq::empty())
                } else {
                    &&& id == Id(old(self).model().len() as u32)
                    &&& add_done(old(self), final(self), form)
                    &&& N::made(old(self).kid_data(form), &form, &final(self).class_data(id))
                    &&& old(self).evolved(
                        final(self),
                        seq![HookEvent::Added { id, node: form }],
                    )
                }
            }),
            old(self).model().looked_up(node) is Some <==> old(self).model().has_node(node),
            final(self).model().has(id),
            final(self).model().root(id) == id,
            final(self).model().looked_up(node) == Some(id),
            holds_node(
                final(self).model().roots,
                final(self).model().class(id),
                canon(final(self).model().roots, node),
            ),
            old(self).grows_into(final(self)),
    {
        let mut node = node;
        let ghost given = node;
        let ghost m = self.model();
        proof {
            self.lemma_safe();
            lemma_key::<L>();
            lemma_canon_twice(m.roots, given);
        }
        self.canonicalize(&mut node);
        let ghost between = *self;
        proof {
            reveal(Model::consistent_with);
            lemma_looked_up(m, given);
            assert forall|k: Id| #[trigger] self.class_data(k) == old(self).class_data(k) by {
                assert(between.class_data(k) == old(self).class_data(k));
            }
        }
        if let Some(id) = self.class_of_form(&node) {
            proof {
                assert(old(self).same(self));
                old(self).lemma_same_evolved(self);
            }
            return id;
        }
        assert(!m.memo.contains_key(node));
        assert(canon_ids(m.roots, node.kids()) =~= node.kids());
        assert(addable(m, node));
        // Compute analysis data before inserting (children already have data).
        let data = N::make(self, &node);
        let ghost value = data;
        let ghost before = *self;
        assert(N::made(old(self).kid_data(node), &node, &value)) by {
            assert(before.kid_data(node) =~= old(self).kid_data(node)) by {
                assert forall|j: int| 0 <= j < node.kids().len() implies before.kid_data(node)[j]
                    == old(self).kid_data(node)[j] by {
                    let kid = m.root(node.kids()[j]);
                    assert(before.class_data(kid) == old(self).class_data(kid));
                }
            }
        }
        proof {
            self.lemma_safe();
        }
        let id = self.make_set();
        let ghost fresh = *self;
        assert forall|j: int| #![trigger node.kids()[j]] 0 <= j < node.kids().len() implies
            self.classes@[node.kids()[j].at()] is Some by {
            let kid = node.kids()[j];
            assert(canon_ids(m.roots, node.kids())[j] == kid);
            assert(before.classes@[kid.at()] is Some);
            assert(self.classes@[kid.at()] == before.classes@[kid.at()]);
        }
        self.register(&node, id);
        let ghost linked = *self;
        let key = copy_node(&node);
        self.memo.insert(key, id);
        let own = copy_node(&node);
        let class = self.classes[id.0 as usize].as_mut().unwrap();
        class.nodes.push(own);
        class.data = data;
        // Freeze this id's term for explanations, built from the children's
        // frozen terms.
        let snap = self.frozen_term(&node);
        self.term_snapshot.push(snap);
        // Let the analysis react to the new class's data during rebuild.
        self.analysis_pending.push(id);
        proof {
            let n = m.added(node);
            let start = m.parents.push(Seq::empty());
            assert(fresh.model().parents =~= start);
            assert(self.model().parents =~= linked.model().parents);
            assert(fresh.model().nodes =~= m.nodes.push(Seq::empty()));
            assert(self.model().nodes =~= n.nodes) by {
                assert forall|i: int| 0 <= i < n.nodes.len() implies self.model().nodes[i]
                    =~= n.nodes[i] by {
                    assert(linked.model().nodes[i] == fresh.model().nodes[i]);
                }
            }
            assert(self.model().memo =~= n.memo);
            assert(self.model() == n);
            assert(self.terms() =~= old(self).terms().push(
                node.rendered(kid_terms(old(self).terms(), node)),
            ));
            assert(self.edges() == old(self).edges().push(Seq::empty()));
            lemma_forest_new_id(m.roots, before.edges(), id);
            lemma_added(m, node);
        }
        // Notify observers of the newly created e-node.
        let ghost quiet = *self;
        self.fire_on_add(id, &node);
        proof {
            assert(self.model() == quiet.model());
            assert(self.edges() == quiet.edges());
            assert(self.safe());
            assert(self.terms() == quiet.terms());
            assert(quiet.watchers() == old(self).watchers());
            assert forall|k: Id| m.has(k) implies #[trigger] self.class_data(k)
                == old(self).class_data(k) by {
                assert(before.class_data(k) == old(self).class_data(k));
                assert(fresh.classes@[k.at()] == before.classes@[k.at()]);
                assert(self.classes@[k.at()] == linked.classes@[k.at()]);
            }
            assert(self.class_data(id) == quiet.class_data(id));
            assert(self.class_data(id) == value);
            assert(add_done(old(self), self, node));
            lemma_add_evolved(old(self), self, node);
            let n = self.model();
            assert(n.class(id)[0] == node);
            assert(canon_ids(n.roots, given.kids()) =~= canon_ids(m.roots, given.kids()));
            assert(canon_ids(n.roots, node.kids()) =~= canon_ids(m.roots, node.kids()));
            lemma_canon_same(n.roots, node);
        }
        id
    }
}

/// The model of a graph without ids.
pub open spec fn empty_model<L: Language>() -> Model<L> {
    Model {
        roots: Seq::empty(),
        nodes: Seq::empty(),
        parents: Seq::empty(),
        memo: Map::empty(),
        pending: Seq::empty(),
    }
}

impl<L: Language, N: ClassData + Default> Default for EGraph<L, N> {
    /// A graph without ids or hooks.
    fn default() -> (graph: Self)
        ensures
            lawful::<L>() ==> graph.wf(),
            lawful::<L>() ==> graph.model() == empty_model::<L>(),
            graph.edges().len() == 0,
            graph.terms().len() == 0,
            graph.watchers().len() == 0,
            graph.stale().len() == 0,
            graph.reason() == Reason::Rule("congruence"@),
    {
        let graph = EGraph {
            analysis: N::default(),
            union_find: UnionFind::new(),
            memo: HashMap::new(),
            classes: Vec::new(),
            pending: Vec::new(),
            analysis_pending: Vec::new(),
            explain_edges: Vec::new(),
            current_reason: Justification::Rule("congruence"),
            term_snapshot: Vec::new(),
            hooks: Vec::new(),
        };
        proof {
            if lawful::<L>() {
                lemma_key::<L>();
                lemma_forest_empty();
                let m = graph.model();
                assert(m.nodes =~= Seq::empty());
                assert(m.parents =~= Seq::empty());
                assert(m.memo =~= Map::empty());
                assert(m == empty_model::<L>());
                assert(graph.edges() =~= Seq::empty());
                reveal(Model::consistent_with);
            }
        }
        graph
    }
}

impl<L: Language, N: ClassData + Default> EGraph<L, N> {
    /// A graph without ids or hooks.
    pub fn new() -> (graph: Self)
        ensures
            lawful::<L>() ==> graph.wf(),
            lawful::<L>() ==> graph.model() == empty_model::<L>(),
            graph.edges().len() == 0,
            graph.terms().len() == 0,
            graph.watchers().len() == 0,
            graph.stale().len() == 0,
            graph.reason() == Reason::Rule("congruence"@),
    {
        EGraph::default()
    }
}

} // verus!
