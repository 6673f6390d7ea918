//! Rebuild: restore congruence and the hashcons invariants after merges.

use super::closure::{
    came_from, collected, drawn_from, forced, forms, is_canonical, lemma_collected, lemma_collected_same,
    lemma_forced_merge,
    lemma_class_forms, lemma_forced_start, lemma_forms_apart, tidy,
};
use super::forest::{pairs_equal, with_edge, Edges, Reason};
use super::freshness::{
    all_attended, attended, attended_but, attended_upto, caught_up, gained, lemma_all_attended,
    lemma_all_gained, lemma_same_up_to_date, lemma_taken_off, made_by_operator, queued, up_to_date, waits,
};
use super::graph::{absorbed, lemma_merge_evolved, merge_event, merged_for, survivor};
use super::hooks::{classes_of, lemma_event_progress, lemma_events_progress, replay_one, HookEvent};
use super::lang::{copy_node, lawful, lemma_key, Id, Language};
use super::meaning::{stems_at, stems_from};
use super::model::{
    canon, canon_ids, coarsens, holds_node, in_range, lemma_canon_coarsens, lemma_canon_twice,
    lemma_coarsens_trans, mentions, Model,
};
use super::passes::{
    all_moved, all_traced, cleaned, congruence_step, data_step, entry_traced, lemma_carried_more,
    lemma_carried_quiet, lemma_carried_start, lemma_congruence_more, lemma_congruence_quiet,
    lemma_congruence_start, lemma_traced_form, lemma_traced_grows, modified_by, modify_step, moved,
    only_carried, only_congruence, only_modified, pass, passed, passes_done, reads_same, repaired,
    same_data, spreads,
};
use super::repair::{
    lemma_put_back, lemma_reinterned, lemma_same_nodes_kept, lemma_taken_out, put_back,
    reinterned, taken_out,
};
use super::steps::{lemma_merged, mergeable};
use super::{extends, Analysis, ClassData, EClass, EGraph, Justification};
use std::collections::HashSet;
use vstd::prelude::*;
use vstd::std_specs::hash::obeys_key_model;

verus! {

/// The pairs of `from` and `to` at the same place that differ, in their order.
pub open spec fn differing(from: Seq<Id>, to: Seq<Id>) -> Seq<(Id, Id)>
    decreases from.len(),
{
    if from.len() == 0 {
        Seq::empty()
    } else if from.last() != to[from.len() - 1] {
        differing(from.drop_last(), to).push((from.last(), to[from.len() - 1]))
    } else {
        differing(from.drop_last(), to)
    }
}

/// The distinct classes `a` and `b` hold e-nodes of the canonical form of
/// `node`, which is not canonical, and `reason` lists the children in which it
/// differs from that form.
pub open spec fn joins_forms<L: Language>(
    m: Model<L>,
    a: Id,
    b: Id,
    node: L,
    reason: Reason,
) -> bool {
    let form = canon(m.roots, node);
    &&& m.has(a) && m.has(b) && m.root(a) == a && m.root(b) == b && a != b
    &&& m.knows(node)
    &&& form != node
    &&& holds_node(m.roots, m.nodes[a.at()], form)
    &&& holds_node(m.roots, m.nodes[b.at()], form)
    &&& reason == Reason::Congruence(differing(node.kids(), form.kids()))
}

/// On the way from `old` to `new` two classes that `a` and `b` represented were
/// merged by congruence, for `reason`.
#[verifier::opaque]
pub open spec fn by_congruence<L: Language, N: ClassData>(
    old: &EGraph<L, N>,
    new: &EGraph<L, N>,
    a: Id,
    b: Id,
    reason: Reason,
) -> bool {
    exists|mid: &EGraph<L, N>, node: L|
        {
            &&& #[trigger] joins_forms(mid.model(), a, b, node, reason)
            &&& mid.safe()
            &&& old.grows_into(mid)
            &&& mid.grows_into(new)
        }
}

/// Every proof edge of `new` that `old` does not have is a congruence.
pub open spec fn edges_by_congruence<L: Language, N: ClassData>(
    old: &EGraph<L, N>,
    new: &EGraph<L, N>,
) -> bool {
    forall|i: int, e: int|
        #![trigger new.edges()[i][e]]
        0 <= i < new.edges().len() && 0 <= e < new.edges()[i].len() ==> is_old_edge(
            old.edges(),
            i,
            e,
        ) || by_congruence(old, new, Id(i as u32), new.edges()[i][e].0, new.edges()[i][e].1)
}

/// The place of an edge was in use.
pub open spec fn is_old_edge(edges: Edges, i: int, e: int) -> bool {
    i < edges.len() && e < edges[i].len()
}

/// What happened on a part of the way happened on the whole way.
pub proof fn lemma_by_congruence_grows<L: Language, N: ClassData>(
    first: &EGraph<L, N>,
    old: &EGraph<L, N>,
    new: &EGraph<L, N>,
    last: &EGraph<L, N>,
    a: Id,
    b: Id,
    reason: Reason,
)
    requires
        first.safe(),
        old.safe(),
        new.safe(),
        last.safe(),
        first.grows_into(old),
        new.grows_into(last),
        by_congruence(old, new, a, b, reason),
    ensures
        by_congruence(first, last, a, b, reason),
{
    reveal(by_congruence);
    let (mid, node) = choose|mid: &EGraph<L, N>, node: L|
        {
            &&& #[trigger] joins_forms(mid.model(), a, b, node, reason)
            &&& mid.safe()
            &&& old.grows_into(mid)
            &&& mid.grows_into(new)
        };
    EGraph::lemma_grows_trans(first, old, mid);
    EGraph::lemma_grows_trans(mid, new, last);
    assert(joins_forms(mid.model(), a, b, node, reason));
}

/// Edges that came in two steps.
pub proof fn lemma_edges_trans<L: Language, N: ClassData>(
    a: &EGraph<L, N>,
    b: &EGraph<L, N>,
    c: &EGraph<L, N>,
)
    requires
        a.safe(),
        b.safe(),
        c.safe(),
        a.grows_into(b),
        b.grows_into(c),
        edges_by_congruence(a, b),
        edges_by_congruence(b, c),
    ensures
        edges_by_congruence(a, c),
{
    lemma_quiet_grows(a);
    lemma_quiet_grows(c);
    let events = choose|events: Seq<HookEvent<L>>| #[trigger] b.evolved(c, events);
    assert forall|i: int, e: int|
        #![trigger c.edges()[i][e]]
        0 <= i < c.edges().len() && 0 <= e < c.edges()[i].len() implies is_old_edge(
        a.edges(),
        i,
        e,
    ) || by_congruence(a, c, Id(i as u32), c.edges()[i][e].0, c.edges()[i][e].1) by {
        let (to, reason) = c.edges()[i][e];
        if is_old_edge(b.edges(), i, e) {
            assert(extends(b.edges()[i], c.edges()[i]));
            assert(b.edges()[i][e] == c.edges()[i][e]);
            if !is_old_edge(a.edges(), i, e) {
                lemma_by_congruence_grows(a, a, b, c, Id(i as u32), to, reason);
            }
        } else {
            lemma_by_congruence_grows(a, b, c, c, Id(i as u32), to, reason);
        }
    }
}

/// `now` came out of `start` by forced merges only.
pub open spec fn mended<L: Language, N: ClassData>(
    start: &EGraph<L, N>,
    now: &EGraph<L, N>,
) -> bool {
    &&& start.safe()
    &&& now.safe()
    &&& start.grows_into(now)
    &&& now.model().len() == start.model().len()
    &&& now.terms() == start.terms()
    &&& extends(start.stale(), now.stale())
    &&& coarsens(start.model().roots, now.model().roots)
    &&& forced(start.model(), now.model().roots)
    &&& drawn_from(start.model(), now.model())
    &&& edges_by_congruence(start, now)
    &&& only_congruence(start, now)
    &&& now.reason() == start.reason() || now.reason() == Reason::Rule("congruence"@)
}

/// The rows of `next` hold entries of `now` only, which stay traced.
proof fn lemma_rows_traced<L: Language, N: ClassData>(
    start: &EGraph<L, N>,
    now: &EGraph<L, N>,
    next: &EGraph<L, N>,
    extra: Seq<(L, Id)>,
    more: Seq<(L, Id)>,
)
    requires
        start.safe(),
        now.safe(),
        next.safe(),
        start.grows_into(now),
        now.grows_into(next),
        all_traced(start, now, extra),
        forall|e: int| #![trigger extra[e]] 0 <= e < extra.len() ==> now.model().entry_ok(extra[e]),
        forall|c: int, e: int|
            #![trigger next.model().parents[c][e]]
            0 <= c < next.model().len() && 0 <= e < next.model().parents[c].len() ==> is_entry(
                now.model(),
                extra,
                next.model().parents[c][e],
            ),
        forall|e: int|
            #![trigger more[e]]
            0 <= e < more.len() ==> is_entry(now.model(), extra, more[e]),
    ensures
        all_traced(start, next, more),
{
    now.lemma_safe();
    let n = next.model();
    assert forall|c: int, e: int|
        #![trigger n.parents[c][e]]
        0 <= c < n.len() && 0 <= e < n.parents[c].len() implies entry_traced(
        start,
        next,
        n.parents[c][e],
    ) by {
        assert(is_entry(now.model(), extra, next.model().parents[c][e]));
        lemma_entry_traced(start, now, next, extra, n.parents[c][e]);
    }
    assert forall|e: int| #![trigger more[e]] 0 <= e < more.len() implies entry_traced(
        start,
        next,
        more[e],
    ) by {
        lemma_entry_traced(start, now, next, extra, more[e]);
    }
}

/// The entry is in a row of the table or in `extra`.
spec fn is_entry<L: Language>(m: Model<L>, extra: Seq<(L, Id)>, entry: (L, Id)) -> bool {
    ||| exists|c: int, e: int|
        #![trigger m.parents[c][e]]
        0 <= c < m.len() && 0 <= e < m.parents[c].len() && m.parents[c][e] == entry
    ||| exists|e: int| #![trigger extra[e]] 0 <= e < extra.len() && extra[e] == entry
}

proof fn lemma_entry_traced<L: Language, N: ClassData>(
    start: &EGraph<L, N>,
    now: &EGraph<L, N>,
    next: &EGraph<L, N>,
    extra: Seq<(L, Id)>,
    entry: (L, Id),
)
    requires
        start.safe(),
        now.safe(),
        next.safe(),
        start.grows_into(now),
        now.grows_into(next),
        all_traced(start, now, extra),
        forall|e: int| #![trigger extra[e]] 0 <= e < extra.len() ==> now.model().entry_ok(extra[e]),
        is_entry(now.model(), extra, entry),
    ensures
        entry_traced(start, next, entry),
{
    now.lemma_safe();
    let m = now.model();
    if exists|c: int, e: int|
        #![trigger m.parents[c][e]]
        0 <= c < m.len() && 0 <= e < m.parents[c].len() && m.parents[c][e] == entry {
        let (c, e) = choose|c: int, e: int|
            #![trigger m.parents[c][e]]
            0 <= c < m.len() && 0 <= e < m.parents[c].len() && m.parents[c][e] == entry;
        assert(m.entry_ok(m.parents[c][e]));
        assert(entry_traced(start, now, now.model().parents[c][e]));
    } else {
        let e = choose|e: int| #![trigger extra[e]] 0 <= e < extra.len() && extra[e] == entry;
        assert(m.entry_ok(extra[e]));
        assert(entry_traced(start, now, extra[e]));
    }
    lemma_traced_grows(start, now, next, entry);
}

/// Every entry of a graph goes back to itself.
proof fn lemma_traced_start<L: Language, N: ClassData>(start: &EGraph<L, N>)
    ensures
        all_traced(start, start, Seq::empty()),
{
    let m = start.model();
    assert forall|c: int, e: int|
        #![trigger m.parents[c][e]]
        0 <= c < m.len() && 0 <= e < m.parents[c].len() implies entry_traced(
        start,
        start,
        m.parents[c][e],
    ) by {
        assert(start.model().parents[c][e] == m.parents[c][e]);
    }
}

/// One class less, or the same classes and one waiting class less.
pub open spec fn progressed<L: Language>(old: Model<L>, new: Model<L>) -> bool {
    ||| classes_of(new.roots) < classes_of(old.roots)
    ||| new.roots == old.roots && new.pending == old.pending.drop_last()
}

/// The edges stay labelled while none is added.
proof fn lemma_edges_kept<L: Language, N: ClassData>(
    start: &EGraph<L, N>,
    now: &EGraph<L, N>,
    next: &EGraph<L, N>,
)
    requires
        start.safe(),
        now.safe(),
        next.safe(),
        now.grows_into(next),
        next.edges() == now.edges(),
        edges_by_congruence(start, now),
    ensures
        edges_by_congruence(start, next),
{
    lemma_quiet_grows(start);
    assert forall|i: int, e: int|
        #![trigger next.edges()[i][e]]
        0 <= i < next.edges().len() && 0 <= e < next.edges()[i].len() implies is_old_edge(
        start.edges(),
        i,
        e,
    ) || by_congruence(
        start,
        next,
        Id(i as u32),
        next.edges()[i][e].0,
        next.edges()[i][e].1,
    ) by {
        let (to, reason) = now.edges()[i][e];
        if !is_old_edge(start.edges(), i, e) {
            lemma_by_congruence_grows(start, start, now, next, Id(i as u32), to, reason);
        }
    }
}

/// Doing nothing grows a graph.
pub proof fn lemma_quiet_grows<L: Language, N: ClassData>(egraph: &EGraph<L, N>)
    requires
        egraph.safe(),
    ensures
        egraph.grows_into(egraph),
{
    egraph.lemma_safe();
    lemma_same_nodes_kept(egraph.model(), egraph.model());
    egraph.lemma_quiet(egraph);
}

/// A quiet step keeps the track.
proof fn lemma_mended_quiet<L: Language, N: ClassData>(
    start: &EGraph<L, N>,
    now: &EGraph<L, N>,
    next: &EGraph<L, N>,
)
    requires
        mended(start, now),
        next.safe(),
        next.model().roots == now.model().roots,
        next.model().nodes == now.model().nodes,
        next.edges() == now.edges(),
        next.terms() == now.terms(),
        next.watchers() == now.watchers(),
        next.stale() == now.stale(),
        next.reason() == now.reason(),
        forall|id: Id|
            #![trigger next.class_data(id)]
            now.model().has(id) ==> next.class_data(id) == now.class_data(id),
        now.settled() ==> next.settled(),
    ensures
        mended(start, next),
        now.grows_into(next),
{
    assert(reads_same(now, next));
    lemma_congruence_quiet(start, now, next);
    now.lemma_safe();
    lemma_same_nodes_kept(now.model(), next.model());
    now.lemma_quiet(next);
    EGraph::lemma_grows_trans(start, now, next);
    lemma_edges_kept(start, now, next);
    assert forall|k: int, a: int|
        #![trigger next.model().nodes[k][a]]
        0 <= k < next.model().len() && 0 <= a
            < next.model().nodes[k].len() implies came_from(
        start.model(),
        next.model().roots,
        next.model().nodes[k][a],
        Id(k as u32),
    ) by {
        assert(came_from(
            start.model(),
            now.model().roots,
            now.model().nodes[k][a],
            Id(k as u32),
        ));
    }
}

/// The child ids that differ between a node and its canonical form.
fn congruence_pairs<L: Language>(orig: &L, node: &L, roots: Ghost<Seq<Id>>) -> (pairs: Vec<(Id, Id)>)
    requires
        node.kids() == canon_ids(roots@, orig.kids()),
        canon_ids(roots@, node.kids()) == node.kids(),
        in_range(roots@.len(), orig.kids()),
        in_range(roots@.len(), node.kids()),
    ensures
        pairs@ == differing(orig.kids(), node.kids()),
        pairs_equal(roots@, Reason::Congruence(pairs@)),
{
    let mut pairs: Vec<(Id, Id)> = Vec::new();
    let mut j: usize = 0;
    while j < orig.children().len()
        invariant
            j <= orig.kids().len(),
            pairs@ == differing(orig.kids().take(j as int), node.kids()),
            node.kids() == canon_ids(roots@, orig.kids()),
            canon_ids(roots@, node.kids()) == node.kids(),
            in_range(roots@.len(), orig.kids()),
            in_range(roots@.len(), node.kids()),
            forall|i: int|
                #![trigger pairs@[i]]
                0 <= i < pairs@.len() ==> pairs@[i].0.at() < roots@.len() && pairs@[i].1.at()
                    < roots@.len() && roots@[pairs@[i].0.at()] == roots@[pairs@[i].1.at()],
        decreases orig.kids().len() - j,
    {
        let (o, c) = (orig.children()[j], node.children()[j]);
        assert(orig.kids()[j as int] == o && node.kids()[j as int] == c);
        assert(canon_ids(roots@, node.kids())[j as int] == roots@[c.at()]);
        assert(canon_ids(roots@, orig.kids())[j as int] == roots@[o.at()]);
        if o != c {
            pairs.push((o, c));
        }
        assert(orig.kids().take(j + 1).drop_last() =~= orig.kids().take(j as int));
        j = j + 1;
    }
    assert(orig.kids().take(j as int) =~= orig.kids());
    pairs
}

impl<L: Language, N: Analysis<L>> EGraph<L, N> {
    /// Merge two classes that hold nodes of one canonical form.
    fn merge_congruent(&mut self, a: Id, b: Id, pairs: Vec<(Id, Id)>)
        requires
            old(self).safe(),
            old(self).model().has(a),
            old(self).model().has(b),
            old(self).model().root(a) == a,
            old(self).model().root(b) == b,
            a != b,
            pairs_equal(old(self).model().roots, Reason::Congruence(pairs@)),
        ensures
            final(self).safe(),
            ({
                let m = old(self).model();
                final(self).model() == m.merged(survivor(m, a, b), absorbed(m, a, b))
            }),
            merged_for(old(self), final(self), a, b, Reason::Congruence(pairs@)),
            final(self).reason() == Reason::Rule("congruence"@),
            final(self).terms() == old(self).terms(),
            final(self).edges() == with_edge(old(self).edges(), a, b, Reason::Congruence(pairs@)),
            extends(old(self).stale(), final(self).stale()),
            old(self).evolved(final(self), seq![merge_event(old(self).model(), a, b)]),
    {
        let ghost m = self.model();
        self.current_reason = Justification::Congruence(pairs);
        let ghost named = *self;
        assert(self.model() == m);
        assert(self.edges() == old(self).edges());
        self.merge_step(a, b);
        let ghost merged = *self;
        proof {
            lemma_merge_evolved(&named, &merged, a, b);
        }
        self.current_reason = Justification::Rule("congruence");
        proof {
            assert(self.model() == merged.model());
            assert(self.edges() == merged.edges());
            assert(merged_for(&named, &merged, a, b, Reason::Congruence(pairs@)));
            lemma_relabelled(&named, &merged, old(self), self, a, b, Reason::Congruence(pairs@));
            let events = seq![merge_event(m, a, b)];
            assert(named.evolved(&merged, events));
            assert(old(self).evolved(self, events));
        }
    }

    /// Re-intern one parent entry under its canonical form. If that form
    /// belongs to another class, the two classes merge by congruence.
    fn reintern(
        &mut self,
        node: &L,
        owner: Id,
        Ghost(start): Ghost<Self>,
        Ghost(home): Ghost<Id>,
        Ghost(done): Ghost<Seq<(L, Id)>>,
        Ghost(todo): Ghost<Seq<(L, Id)>>,
    ) -> (entry: (L, Id))
        requires
            mended(&start, old(self)),
            old(self).model().has(home),
            todo.len() > 0,
            todo[0] == (*node, owner),
            forall|e: int|
                #![trigger todo[e]]
                0 <= e < todo.len() ==> old(self).model().entry_ok(todo[e]),
            old(self).model().consistent_with(home, done + todo, todo),
            all_traced(&start, old(self), done + todo),
        ensures
            mended(&start, final(self)),
            all_traced(&start, final(self), done.push(entry) + todo.drop_first()),
            final(self).model().consistent_with(
                home,
                done.push(entry) + todo.drop_first(),
                todo.drop_first(),
            ),
            classes_of(final(self).model().roots) < classes_of(old(self).model().roots) || (
            final(self).model().roots == old(self).model().roots && final(self).model().pending
                == old(self).model().pending),
    {
        let ghost m = self.model();
        proof {
            self.lemma_safe();
            lemma_key::<L>();
            assert(m.entry_ok(todo[0]));
            lemma_canon_twice(m.roots, *node);
        }
        let mut form = copy_node(node);
        self.canonicalize(&mut form);
        let ghost key = form;
        let ghost quiet = *self;
        proof {
            lemma_mended_quiet(&start, old(self), self);
        }
        let found = match self.memo.get(&form) {
            Some(existing) => Some(*existing),
            None => None,
        };
        proof {
            lemma_quiet_grows(&quiet);
        }
        if let Some(existing) = found {
            assert(m.memo.contains_key(key) && m.memo[key] == existing);
            let existing_root = self.find(existing);
            let owner_root = self.find(owner);
            proof {
                lemma_mended_quiet(&start, &quiet, self);
            }
            if existing_root != owner_root {
                // This merge is by congruence: the two nodes match because
                // their children became equal. Record which child pairs must
                // be explained to justify it.
                assert(canon_ids(m.roots, key.kids()) =~= key.kids());
                let pairs = congruence_pairs(node, &form, Ghost(m.roots));
                let ghost before = *self;
                self.merge_congruent(existing_root, owner_root, pairs);
                proof {
                    assert(before.grows_into(self));
                    EGraph::lemma_grows_trans(old(self), &quiet, &before);
                    EGraph::lemma_grows_trans(&quiet, &before, self);
                    assert((done + todo)[done.len() as int] == todo[0]);
                    lemma_traced_grows(&start, old(self), &before, todo[0]);
                    assert(m.root(existing_root) == existing_root && m.root(owner_root) == owner_root);
                    assert(mergeable(
                        m,
                        survivor(m, existing_root, owner_root),
                        absorbed(m, existing_root, owner_root),
                    ));
                    lemma_merge_mended(
                        &start,
                        &before,
                        self,
                        existing_root,
                        owner_root,
                        home,
                        done,
                        todo,
                        key,
                    );
                }
            }
        }
        let ghost settled = *self;
        let owner_root = self.find(owner);
        let ghost looked = *self;
        let copy = copy_node(&form);
        self.memo.insert(copy, owner_root);
        proof {
            assert forall|id: Id|
                #![trigger self.class_data(id)]
                settled.model().has(id) implies self.class_data(id) == settled.class_data(id) by {
                assert(looked.class_data(id) == settled.class_data(id));
                assert(self.class_data(id) == looked.class_data(id));
            }
            let now = settled.model();
            settled.lemma_safe();
            assert(self.model() == reinterned(now, key, owner_root));
            assert(now.knows(*node)) by {
                assert(in_range(m.len(), node.kids()));
            }
            if now.roots == m.roots {
                assert(canon(now.roots, key) == key);
            }
            lemma_canon_coarsens(m.roots, now.roots, key, *node);
            lemma_reinterned(now, home, done, todo, key, owner_root);
            assert(self.edges() == settled.edges());
            assert(self.safe());
            lemma_mended_quiet(&start, &settled, self);
            assert forall|e: int|
                #![trigger (done + todo)[e]]
                0 <= e < (done + todo).len() implies m.entry_ok((done + todo)[e]) by {
                reveal(Model::consistent_with);
            }
            lemma_reintern_traced(
                &start,
                old(self),
                &quiet,
                &settled,
                self,
                home,
                done,
                todo,
                key,
                owner_root,
            );
        }
        (form, owner_root)
    }
}

/// One more edge, labelled.
#[verifier::spinoff_prover]
proof fn lemma_edge_labelled<L: Language, N: ClassData>(
    start: &EGraph<L, N>,
    old: &EGraph<L, N>,
    new: &EGraph<L, N>,
    a: Id,
    b: Id,
    reason: Reason,
)
    requires
        start.safe(),
        old.safe(),
        new.safe(),
        start.grows_into(old),
        old.grows_into(new),
        edges_by_congruence(start, old),
        a.at() < old.edges().len(),
        b.at() < old.edges().len(),
        a != b,
        new.edges() == with_edge(old.edges(), a, b, reason),
        by_congruence(old, old, a, b, reason),
        by_congruence(old, old, b, a, reason),
    ensures
        edges_by_congruence(start, new),
{
    lemma_quiet_grows(start);
    lemma_by_congruence_grows(start, old, old, new, a, b, reason);
    lemma_by_congruence_grows(start, old, old, new, b, a, reason);
    let (was, now) = (old.edges(), new.edges());
    assert(now[a.at()] =~= was[a.at()].push((b, reason)));
    assert(now[b.at()] =~= was[b.at()].push((a, reason)));
    assert(forall|i: int| 0 <= i < was.len() && i != a.at() && i != b.at() ==> now[i] == was[i]);
    assert forall|i: int, e: int|
        #![trigger new.edges()[i][e]]
        0 <= i < new.edges().len() && 0 <= e < new.edges()[i].len() implies is_old_edge(
        start.edges(),
        i,
        e,
    ) || by_congruence(start, new, Id(i as u32), new.edges()[i][e].0, new.edges()[i][e].1) by {
        if e < was[i].len() {
            assert(now[i][e] == was[i][e]);
            if !is_old_edge(start.edges(), i, e) {
                lemma_by_congruence_grows(
                    start,
                    start,
                    old,
                    new,
                    Id(i as u32),
                    was[i][e].0,
                    was[i][e].1,
                );
            }
        } else if i == a.at() {
            assert(now[i][e] == (b, reason));
            assert(Id(i as u32) == a);
        } else {
            assert(i == b.at());
            assert(now[i][e] == (a, reason));
            assert(Id(i as u32) == b);
        }
    }
}

/// A merge by congruence adds an edge that says so.
proof fn lemma_merge_edges<L: Language, N: ClassData>(
    start: &EGraph<L, N>,
    old: &EGraph<L, N>,
    new: &EGraph<L, N>,
    a: Id,
    b: Id,
    node: L,
    key: L,
)
    requires
        start.safe(),
        old.safe(),
        new.safe(),
        start.grows_into(old),
        old.evolved(new, seq![merge_event(old.model(), a, b)]),
        edges_by_congruence(start, old),
        old.model().has(a),
        old.model().has(b),
        old.model().root(a) == a,
        old.model().root(b) == b,
        a != b,
        old.model().knows(node),
        key == canon(old.model().roots, node),
        key != node,
        holds_node(old.model().roots, old.model().nodes[a.at()], key),
        holds_node(old.model().roots, old.model().nodes[b.at()], key),
        new.edges() == with_edge(
            old.edges(),
            a,
            b,
            Reason::Congruence(differing(node.kids(), key.kids())),
        ),
    ensures
        edges_by_congruence(start, new),
{
    old.lemma_safe();
    let reason = Reason::Congruence(differing(node.kids(), key.kids()));
    assert(joins_forms(old.model(), a, b, node, reason));
    assert(joins_forms(old.model(), b, a, node, reason));
    assert(old.grows_into(new));
    lemma_quiet_grows(old);
    assert(by_congruence(old, old, a, b, reason) && by_congruence(old, old, b, a, reason)) by {
        reveal(by_congruence);
    }
    lemma_edge_labelled(start, old, new, a, b, reason);
}

/// After a merge, a canonical form is canonical still, or its node waits for
/// repair.
proof fn lemma_key_waits<L: Language>(m: Model<L>, s: Id, t: Id, key: L, node: L)
    requires
        lawful::<L>(),
        m.shape(),
        mergeable(m, s, t),
        m.merged(s, t).shape(),
        m.knows(node),
        m.knows(key),
        key == canon(m.roots, node),
        canon(m.roots, key) == key,
    ensures
        canon(m.merged(s, t).roots, key) == key || m.merged(s, t).dirty(node),
{
    let n = m.merged(s, t);
    if canon(n.roots, key) != key {
        // A child of the node is in the absorbed class.
        assert(mentions(m.roots, node, t)) by {
            if !mentions(m.roots, node, t) {
                lemma_canon_coarsens(m.roots, n.roots, key, node);
                assert(canon_ids(n.roots, node.kids()) =~= canon_ids(m.roots, node.kids()))
                    by {
                    assert forall|j: int| 0 <= j < node.kids().len() implies n.roots[node.kids()[j].at()]
                        == m.roots[node.kids()[j].at()] by {
                        let kid = node.kids()[j];
                        assert(m.roots[kid.at()] != t);
                    }
                }
            }
        }
        let j = choose|j: int|
            0 <= j < node.kids().len() && m.roots[(#[trigger] node.kids()[j]).at()] == t;
        assert(n.roots[node.kids()[j].at()] == s);
        let last = m.pending.len() as int;
        assert(n.pending[last] == s);
        assert(n.root(s) == s);
        assert(mentions(n.roots, node, n.root(n.pending[last])));
    }
}

/// Merging the classes of one canonical form keeps the track, and the parent
/// entry at hand is interned or waits for repair afterwards.
#[verifier::spinoff_prover]
#[verifier::rlimit(40)]
proof fn lemma_merge_mended<L: Language, N: ClassData>(
    start: &EGraph<L, N>,
    old: &EGraph<L, N>,
    new: &EGraph<L, N>,
    a: Id,
    b: Id,
    home: Id,
    done: Seq<(L, Id)>,
    todo: Seq<(L, Id)>,
    key: L,
)
    requires
        mended(start, old),
        new.safe(),
        old.model().has(home),
        todo.len() > 0,
        forall|e: int| #![trigger todo[e]] 0 <= e < todo.len() ==> old.model().entry_ok(todo[e]),
        old.model().consistent_with(home, done + todo, todo),
        old.model().memo.contains_key(key),
        key == canon(old.model().roots, todo[0].0),
        canon(old.model().roots, key) == key,
        a == old.model().root(old.model().memo[key]),
        b == old.model().root(todo[0].1),
        a != b,
        ({
            let m = old.model();
            new.model() == m.merged(survivor(m, a, b), absorbed(m, a, b))
        }),
        new.terms() == old.terms(),
        new.edges() == with_edge(
            old.edges(),
            a,
            b,
            Reason::Congruence(differing(todo[0].0.kids(), key.kids())),
        ),
        merged_for(old, new, a, b, Reason::Congruence(differing(todo[0].0.kids(), key.kids()))),
        new.reason() == Reason::Rule("congruence"@),
        entry_traced(start, old, todo[0]),
        extends(old.stale(), new.stale()),
        old.evolved(new, seq![merge_event(old.model(), a, b)]),
    ensures
        mended(start, new),
        new.model().consistent_with(home, done + todo, todo),
        classes_of(new.model().roots) < classes_of(old.model().roots),
        new.model().root(new.model().memo[key]) == new.model().root(todo[0].1),
        canon(new.model().roots, key) == key || new.model().dirty(todo[0].0),
{
    old.lemma_safe();
    new.lemma_safe();
    let m = old.model();
    let n = new.model();
    let entry = todo[0];
    assert(m.entry_ok(entry));
    assert(m.root(a) == a && m.root(b) == b);
    let (s, t) = (survivor(m, a, b), absorbed(m, a, b));
    assert(mergeable(m, s, t));
    lemma_merged(m, s, t, home, done + todo, todo);
    assert(start.grows_into(new)) by {
        old.lemma_grows_trans_one(start, new, seq![merge_event(m, a, b)]);
    }
    assert(classes_of(n.roots) < classes_of(m.roots)) by {
        lemma_event_progress(m.roots, merge_event(m, a, b));
        assert(n.roots == replay_one(m.roots, merge_event(m, a, b)));
    }
    assert(holds_node(m.roots, m.nodes[a.at()], key) && holds_node(m.roots, m.nodes[b.at()], key))
        by {
        reveal(Model::consistent_with);
        assert((done + todo)[done.len() as int] == entry);
        assert(m.real_entry(m.root(home), entry));
        assert(m.sound());
    }
    assert(key != entry.0) by {
        reveal(Model::consistent_with);
        assert((done + todo)[done.len() as int] == entry);
        assert(m.placed_entry(entry));
    }
    assert(forced(start.model(), n.roots) && drawn_from(start.model(), n)) by {
        lemma_forced_merge(start.model(), m, a, b, key);
    }
    lemma_coarsens_trans(start.model().roots, m.roots, n.roots);
    assert(m.knows(key));
    lemma_key_waits(m, s, t, key, entry.0);
    lemma_merge_edges(start, old, new, a, b, entry.0, key);
    assert(congruence_step(start, old, new, a, b, entry.0)) by {
        lemma_same_owner(start, old, entry, b);
    }
    lemma_congruence_more(start, old, new, a, b, entry.0);
}

/// Which id of its class stands for the owner does not matter.
proof fn lemma_same_owner<L: Language, N: ClassData>(
    start: &EGraph<L, N>,
    now: &EGraph<L, N>,
    entry: (L, Id),
    owner: Id,
)
    requires
        entry_traced(start, now, entry),
        now.model().root(owner) == now.model().root(entry.1),
    ensures
        entry_traced(start, now, (entry.0, owner)),
{
}

/// The name of the next reason does not matter to a merge for a given one.
pub proof fn lemma_relabelled<L: Language, N: ClassData>(
    named: &EGraph<L, N>,
    merged: &EGraph<L, N>,
    old: &EGraph<L, N>,
    new: &EGraph<L, N>,
    a: Id,
    b: Id,
    reason: Reason,
)
    requires
        merged_for(named, merged, a, b, reason),
        old.model() == named.model(),
        old.edges() == named.edges(),
        old.terms() == named.terms(),
        old.stale() == named.stale(),
        old.watchers() == named.watchers(),
        forall|id: Id| #[trigger] old.class_data(id) == named.class_data(id),
        new.model() == merged.model(),
        new.edges() == merged.edges(),
        new.terms() == merged.terms(),
        new.stale() == merged.stale(),
        new.watchers() == merged.watchers(),
        forall|id: Id| #[trigger] new.class_data(id) == merged.class_data(id),
    ensures
        merged_for(old, new, a, b, reason),
{
    let m = old.model();
    let s = survivor(m, m.root(a), m.root(b));
    let t = absorbed(m, m.root(a), m.root(b));
    assert(old.class_data(s) == named.class_data(s) && old.class_data(t) == named.class_data(t));
    assert(new.class_data(s) == merged.class_data(s));
    assert forall|id: Id|
        #![trigger new.class_data(id)]
        m.has(id) && id != s && id != t implies new.class_data(id) == old.class_data(id) by {
        assert(merged.class_data(id) == named.class_data(id));
        assert(old.class_data(id) == named.class_data(id));
    }
}

/// The parent entries are traced after one of them was re-interned.
#[verifier::spinoff_prover]
proof fn lemma_reintern_traced<L: Language, N: ClassData>(
    start: &EGraph<L, N>,
    old: &EGraph<L, N>,
    quiet: &EGraph<L, N>,
    settled: &EGraph<L, N>,
    new: &EGraph<L, N>,
    home: Id,
    done: Seq<(L, Id)>,
    todo: Seq<(L, Id)>,
    key: L,
    k: Id,
)
    requires
        start.safe(),
        old.safe(),
        quiet.safe(),
        settled.safe(),
        new.safe(),
        start.grows_into(old),
        old.grows_into(quiet),
        quiet.grows_into(settled),
        settled.grows_into(new),
        quiet.model() == old.model(),
        todo.len() > 0,
        forall|e: int|
            #![trigger (done + todo)[e]]
            0 <= e < (done + todo).len() ==> old.model().entry_ok((done + todo)[e]),
        all_traced(start, old, done + todo),
        key == canon(old.model().roots, todo[0].0),
        k == settled.model().root(todo[0].1),
        new.model() == reinterned(settled.model(), key, k),
        settled.model().parents == old.model().parents || exists|s: Id, t: Id|
            #![trigger old.model().merged(s, t)]
            mergeable(old.model(), s, t) && settled.model().parents == old.model().merged(
                s,
                t,
            ).parents,
    ensures
        all_traced(start, new, done.push((key, k)) + todo.drop_first()),
{
    let (extra, more) = (done + todo, done.push((key, k)) + todo.drop_first());
    let rest = done + todo.drop_first();
    let m = old.model();
    let n = new.model();
    old.lemma_safe();
    EGraph::lemma_grows_trans(old, quiet, settled);
    EGraph::lemma_grows_trans(old, settled, new);
    assert forall|c: int, e: int|
        #![trigger n.parents[c][e]]
        0 <= c < n.len() && 0 <= e < n.parents[c].len() implies is_entry(
        m,
        extra,
        n.parents[c][e],
    ) by {
        if settled.model().parents == m.parents {
            assert(m.parents[c][e] == n.parents[c][e]);
        } else {
            let (s, t) = choose|s: Id, t: Id|
                #![trigger m.merged(s, t)]
                mergeable(m, s, t) && settled.model().parents == m.merged(s, t).parents;
            let la = m.parents[s.at()].len();
            if c == s.at() && e >= la {
                assert(m.parents[t.at()][e - la] == n.parents[c][e]);
            } else {
                assert(m.parents[c][e] == n.parents[c][e]);
            }
        }
    }
    assert forall|e: int| #![trigger rest[e]] 0 <= e < rest.len() implies is_entry(
        m,
        extra,
        rest[e],
    ) by {
        if e < done.len() {
            assert(extra[e] == rest[e]);
        } else {
            assert(extra[e + 1] == rest[e]);
        }
    }
    lemma_rows_traced(start, old, new, extra, rest);
    // The entry at hand.
    let entry = todo[0];
    assert(extra[done.len() as int] == entry);
    assert(m.entry_ok(extra[done.len() as int]));
    lemma_traced_form(start, old, entry);
    let form = (key, m.root(entry.1));
    assert(m.has(form.1));
    lemma_traced_grows(start, old, new, form);
    super::instantiate::lemma_grows_models(old, settled);
    super::instantiate::lemma_grows_models(settled, new);
    assert(m.roots[form.1.at()] == m.roots[entry.1.at()]);
    assert(settled.model().roots[form.1.at()] == settled.model().roots[entry.1.at()]);
    settled.lemma_safe();
    assert(n.root(k) == n.root(form.1));
    lemma_same_owner(start, new, form, k);
    assert forall|e: int| #![trigger more[e]] 0 <= e < more.len() implies entry_traced(
        start,
        new,
        more[e],
    ) by {
        if e < done.len() {
            assert(more[e] == rest[e]);
        } else if e == done.len() {
            assert(more[e] == (key, k));
        } else {
            assert(more[e] == rest[e - 1]);
        }
    }
}

impl<L: Language, N: Analysis<L>> EGraph<L, N> {
    /// Repair the class that waits longest at the end of the list: re-intern
    /// each of its parent nodes.
    fn repair(&mut self, Ghost(start): Ghost<Self>)
        requires
            old(self).wf(),
            old(self).model().pending.len() > 0,
            mended(&start, old(self)),
            all_traced(&start, old(self), Seq::empty()),
        ensures
            final(self).wf(),
            mended(&start, final(self)),
            all_traced(&start, final(self), Seq::empty()),
            progressed(old(self).model(), final(self).model()),
    {
        let ghost m = self.model();
        proof {
            self.lemma_safe();
            assert(m.has(m.pending[m.pending.len() - 1]));
        }
        let waiting = self.pending.pop().unwrap();
        assert(self.model().pending == m.pending.drop_last());
        assert(self.edges() == old(self).edges());
        assert(self.safe()) by {
            assert(self.model() == (Model { pending: m.pending.drop_last(), ..m }));
            assert(self.model().shape()) by {
                lemma_taken_out(m, m.root(waiting));
                assert forall|i: int, e: int|
                    #![trigger self.model().parents[i][e]]
                    0 <= i < m.len() && 0 <= e < self.model().parents[i].len() implies self.model().entry_ok(
                    self.model().parents[i][e],
                ) by {
                    assert(m.entry_ok(m.parents[i][e]));
                }
            }
        }
        let class = self.find(waiting);
        let ghost popped = *self;
        let mut entries: Vec<(L, Id)> = Vec::new();
        std::mem::swap(
            &mut entries,
            &mut self.classes[class.0 as usize].as_mut().unwrap().parents,
        );
        proof {
            lemma_taken_out(m, class);
            assert(self.model().parents =~= taken_out(m, class).parents);
            assert(self.model().nodes =~= m.nodes);
            assert(self.model() == taken_out(m, class));
            assert(self.edges() == old(self).edges());
            assert(entries@ == m.parents[class.at()]);
            assert(self.safe());
            assert forall|id: Id|
                #![trigger self.class_data(id)]
                m.has(id) implies self.class_data(id) == old(self).class_data(id) by {
                assert(popped.class_data(id) == old(self).class_data(id));
                assert(self.class_data(id) == popped.class_data(id));
            }
            lemma_mended_quiet(&start, old(self), self);
            let n = self.model();
            assert forall|c: int, e: int|
                #![trigger n.parents[c][e]]
                0 <= c < n.len() && 0 <= e < n.parents[c].len() implies is_entry(
                m,
                Seq::empty(),
                n.parents[c][e],
            ) by {
                assert(m.parents[c][e] == n.parents[c][e]);
            }
            assert forall|e: int|
                #![trigger entries@[e]]
                0 <= e < entries@.len() implies is_entry(m, Seq::empty(), entries@[e]) by {
                assert(m.parents[class.at()][e] == entries@[e]);
            }
            lemma_rows_traced(&start, old(self), self, Seq::empty(), entries@);
        }
        // Re-intern each parent node under its canonical form. If two parents
        // canonicalize to the same node, their classes merge.
        let mut fresh: Vec<(L, Id)> = Vec::new();
        let mut i: usize = 0;
        assert(fresh@ + entries@.skip(0) =~= entries@);
        assert(entries@.skip(0) =~= entries@);
        while i < entries.len()
            invariant
                i <= entries.len(),
                mended(&start, self),
                m.len() == self.model().len(),
                self.model().has(class),
                forall|e: int| #![trigger entries@[e]] 0 <= e < entries.len() ==> m.entry_ok(entries@[e]),
                self.model().consistent_with(
                    class,
                    fresh@ + entries@.skip(i as int),
                    entries@.skip(i as int),
                ),
                all_traced(&start, self, fresh@ + entries@.skip(i as int)),
                progressed(m, self.model()),
            decreases entries.len() - i,
        {
            let ghost todo = entries@.skip(i as int);
            let ghost before = fresh@;
            assert forall|e: int| #![trigger todo[e]] 0 <= e < todo.len() implies self.model().entry_ok(
                todo[e],
            ) by {
                assert(todo[e] == entries@[i + e]);
                assert(m.entry_ok(entries@[i + e]));
            }
            let entry = self.reintern(
                &entries[i].0,
                entries[i].1,
                Ghost(start),
                Ghost(class),
                Ghost(fresh@),
                Ghost(todo),
            );
            fresh.push(entry);
            i = i + 1;
            assert(todo.drop_first() =~= entries@.skip(i as int));
        }
        let ghost last = *self;
        assert(entries@.skip(i as int) =~= Seq::empty());
        assert(fresh@ + Seq::<(L, Id)>::empty() =~= fresh@);
        let home = self.find(class);
        let ghost found = *self;
        let ghost fresh_entries = fresh@;
        self.classes[home.0 as usize].as_mut().unwrap().parents.append(&mut fresh);
        proof {
            last.lemma_safe();
            lemma_put_back(last.model(), class, fresh_entries);
            assert(self.model().parents =~= put_back(last.model(), home, fresh_entries).parents);
            assert(self.model().nodes =~= last.model().nodes);
            assert(self.model() == put_back(last.model(), home, fresh_entries));
            assert(self.edges() == last.edges());
            assert(self.safe());
            assert forall|id: Id|
                #![trigger self.class_data(id)]
                m.has(id) implies self.class_data(id) == last.class_data(id) by {
                assert(found.class_data(id) == last.class_data(id));
                assert(self.class_data(id) == found.class_data(id));
            }
            lemma_mended_quiet(&start, &last, self);
            let n = self.model();
            let had = last.model().parents[home.at()].len();
            assert forall|c: int, e: int|
                #![trigger n.parents[c][e]]
                0 <= c < n.len() && 0 <= e < n.parents[c].len() implies is_entry(
                last.model(),
                fresh_entries,
                n.parents[c][e],
            ) by {
                if c == home.at() && e >= had {
                    assert(fresh_entries[e - had] == n.parents[c][e]);
                } else {
                    assert(last.model().parents[c][e] == n.parents[c][e]);
                }
            }
            assert forall|e: int|
                #![trigger fresh_entries[e]]
                0 <= e < fresh_entries.len() implies last.model().entry_ok(fresh_entries[e]) by {
                reveal(Model::consistent_with);
            }
            lemma_rows_traced(&start, &last, self, fresh_entries, Seq::empty());
        }
    }

    /// Congruence closure: process waiting classes until none is left.
    fn restore_congruence(&mut self)
        requires
            old(self).wf(),
        ensures
            final(self).wf(),
            mended(old(self), final(self)),
            final(self).model().pending.len() == 0,
            old(self).model().pending.len() == 0 ==> *final(self) == *old(self),
    {
        proof {
            self.lemma_safe();
            self.lemma_grows_refl();
            lemma_forced_start(self.model());
            lemma_congruence_start(&*self);
            lemma_traced_start(&*self);
        }
        while self.pending.len() > 0
            invariant
                self.wf(),
                mended(old(self), self),
                all_traced(old(self), self, Seq::empty()),
                old(self).model().pending.len() == 0 ==> *self == *old(self),
            decreases classes_of(self.model().roots), self.model().pending.len(),
        {
            self.repair(Ghost(*old(self)));
        }
    }
}

/// The hashcons table after the nodes `keys` were interned as class `id`.
spec fn interns<L: Language>(old: Map<L, Id>, new: Map<L, Id>, keys: Seq<L>, id: Id) -> bool {
    &&& forall|key: L| #[trigger]
        new.contains_key(key) <==> old.contains_key(key) || keys.contains(key)
    &&& forall|key: L| #[trigger]
        new.contains_key(key) ==> new[key] == if keys.contains(key) {
            id
        } else {
            old[key]
        }
}

impl<L: Language, N: ClassData> EGraph<L, N> {
    /// The canonical forms of `nodes`, each once.
    fn distinct_forms(&mut self, nodes: &Vec<L>) -> (kept: Vec<L>)
        requires
            old(self).safe(),
            forall|a: int|
                #![trigger nodes@[a]]
                0 <= a < nodes@.len() ==> old(self).model().knows(nodes@[a]),
        ensures
            final(self).safe(),
            old(self).same(final(self)),
            kept@ == forms(old(self).model().roots, nodes@),
    {
        let ghost roots = self.model().roots;
        proof {
            self.lemma_safe();
            lemma_key::<L>();
        }
        let mut kept: Vec<L> = Vec::new();
        let mut seen: HashSet<L> = HashSet::new();
        let mut i: usize = 0;
        while i < nodes.len()
            invariant
                i <= nodes.len(),
                lawful::<L>(),
                obeys_key_model::<L>(),
                vstd::std_specs::hash::builds_valid_hashers::<std::collections::hash_map::RandomState>(),
                self.safe(),
                old(self).same(self),
                roots == self.model().roots,
                forall|a: int|
                    #![trigger nodes@[a]]
                    0 <= a < nodes@.len() ==> self.model().knows(nodes@[a]),
                kept@ == forms(roots, nodes@.take(i as int)),
                forall|node: L| #[trigger] seen@.contains(node) <==> kept@.contains(node),
            decreases nodes.len() - i,
        {
            let ghost done = nodes@.take(i as int);
            let ghost before = kept@;
            let mut node = copy_node(&nodes[i]);
            let ghost between = *self;
            self.canonicalize(&mut node);
            assert forall|id: Id| #[trigger] self.class_data(id) == old(self).class_data(id) by {
                assert(between.class_data(id) == old(self).class_data(id));
            }
            i = i + 1;
            proof {
                let now = nodes@.take(i as int);
                assert(now.drop_last() =~= done);
                assert(now.last() == nodes@[i - 1]);
            }
            if !seen.contains(&node) {
                seen.insert(copy_node(&node));
                kept.push(node);
                assert forall|x: L| #[trigger] seen@.contains(x) <==> kept@.contains(x) by {
                    if before.contains(x) {
                        let k = choose|k: int| 0 <= k < before.len() && before[k] == x;
                        assert(kept@[k] == x);
                    }
                    if x == node {
                        assert(kept@[before.len() as int] == x);
                    }
                }
            }
        }
        assert(nodes@.take(i as int) =~= nodes@);
        kept
    }

    /// Replace the nodes of the class `id` by their canonical forms, each
    /// once, and intern these.
    fn collect_class(&mut self, id: Id)
        requires
            old(self).safe(),
            old(self).model().has(id),
            old(self).model().root(id) == id,
        ensures
            final(self).safe(),
            ({
                let m = old(self).model();
                let kept = forms(m.roots, m.nodes[id.at()]);
                &&& final(self).model() == (Model {
                    nodes: m.nodes.update(id.at(), kept),
                    memo: final(self).model().memo,
                    ..m
                })
                &&& interns(m.memo, final(self).model().memo, kept, id)
            }),
            final(self).edges() == old(self).edges(),
            final(self).terms() == old(self).terms(),
            final(self).watchers() == old(self).watchers(),
            final(self).stale() == old(self).stale(),
            final(self).reason() == old(self).reason(),
            forall|k: Id|
                #![trigger final(self).class_data(k)]
                old(self).model().has(k) ==> final(self).class_data(k) == old(self).class_data(k),
    {
        let ghost m = self.model();
        proof {
            self.lemma_safe();
            lemma_key::<L>();
            lemma_class_forms(m, id.at());
        }
        let mut nodes: Vec<L> = Vec::new();
        std::mem::swap(&mut nodes, &mut self.classes[id.0 as usize].as_mut().unwrap().nodes);
        let ghost emptied = *self;
        proof {
            assert(nodes@ == m.nodes[id.at()]);
            assert(self.model().nodes =~= m.nodes.update(id.at(), Seq::empty()));
            assert(self.model().parents =~= m.parents);
            assert(self.edges() == old(self).edges());
            lemma_shape_nodes(m, id.at(), Seq::empty());
            assert(self.model() == (Model { nodes: m.nodes.update(id.at(), Seq::empty()), ..m }));
            assert(self.safe());
            assert forall|a: int| #![trigger nodes@[a]] 0 <= a < nodes@.len() implies self.model().knows(
                nodes@[a],
            ) by {
                assert(m.knows(m.nodes[id.at()][a]));
            }
        }
        let kept = self.distinct_forms(&nodes);
        let ghost listed = *self;
        let mut i: usize = 0;
        while i < kept.len()
            invariant
                i <= kept.len(),
                lawful::<L>(),
                obeys_key_model::<L>(),
                vstd::std_specs::hash::builds_valid_hashers::<std::collections::hash_map::RandomState>(),
                *self == (EGraph { memo: self.memo, ..listed }),
                interns(m.memo, self.memo@, kept@.take(i as int), id),
            decreases kept.len() - i,
        {
            let ghost before = self.memo@;
            let ghost done = kept@.take(i as int);
            let key = copy_node(&kept[i]);
            self.memo.insert(key, id);
            i = i + 1;
            proof {
                let now = kept@.take(i as int);
                assert(now =~= done.push(key));
                assert forall|x: L| #[trigger] now.contains(x) <==> done.contains(x) || x == key by {
                    if done.contains(x) {
                        let k = choose|k: int| 0 <= k < done.len() && done[k] == x;
                        assert(now[k] == x);
                    }
                    if x == key {
                        assert(now[done.len() as int] == x);
                    }
                }
            }
        }
        assert(kept@.take(i as int) =~= kept@);
        let ghost interned = *self;
        let ghost fresh = kept@;
        self.classes[id.0 as usize].as_mut().unwrap().nodes = kept;
        proof {
            let n = self.model();
            let q = interned.model();
            assert(q.nodes =~= listed.model().nodes);
            assert(q.parents =~= listed.model().parents);
            assert(n.nodes =~= q.nodes.update(id.at(), fresh));
            assert(n.nodes =~= m.nodes.update(id.at(), fresh));
            assert(n.parents =~= q.parents);
            assert(n == (Model { nodes: m.nodes.update(id.at(), fresh), memo: n.memo, ..m }));
            assert(self.edges() == old(self).edges());
            assert(self.terms() == old(self).terms());
            assert(n.shape()) by {
                lemma_shape_nodes(m, id.at(), fresh);
                assert forall|key: L| #[trigger] n.memo.contains_key(key) implies n.knows(key)
                    && n.has(n.memo[key]) by {
                    if fresh.contains(key) {
                        let b = choose|b: int| 0 <= b < fresh.len() && fresh[b] == key;
                        assert(in_range(m.len(), fresh[b].kids()));
                    } else {
                        assert(m.memo.contains_key(key));
                    }
                }
                assert forall|i: int, a: int|
                    #![trigger n.nodes[i][a]]
                    0 <= i < n.len() && 0 <= a < n.nodes[i].len() implies n.knows(n.nodes[i][a]) by {
                    let p = Model { nodes: m.nodes.update(id.at(), fresh), ..m };
                    assert(p.knows(p.nodes[i][a]));
                }
                assert forall|i: int, e: int|
                    #![trigger n.parents[i][e]]
                    0 <= i < n.len() && 0 <= e < n.parents[i].len() implies n.entry_ok(
                    n.parents[i][e],
                ) by {
                    assert(m.entry_ok(m.parents[i][e]));
                }
            }
            assert(self.safe());
            assert forall|k: Id| m.has(k) implies #[trigger] self.class_data(k)
                == old(self).class_data(k) by {
                assert(emptied.class_data(k) == old(self).class_data(k));
                assert(listed.class_data(k) == emptied.class_data(k));
                assert(interned.class_data(k) == listed.class_data(k));
            }
        }
    }
}

/// Other nodes for a class that refer to known ids only.
proof fn lemma_shape_nodes<L: Language>(m: Model<L>, k: int, nodes: Seq<L>)
    requires
        m.shape(),
        0 <= k < m.len(),
        m.roots[k] == Id(k as u32),
        forall|a: int| #![trigger nodes[a]] 0 <= a < nodes.len() ==> in_range(m.len(), nodes[a].kids()),
    ensures
        (Model { nodes: m.nodes.update(k, nodes), ..m }).shape(),
{
    let n = Model { nodes: m.nodes.update(k, nodes), ..m };
    assert forall|i: int, a: int|
        #![trigger n.nodes[i][a]]
        0 <= i < n.len() && 0 <= a < n.nodes[i].len() implies n.knows(n.nodes[i][a]) by {
        if i == k {
            assert(in_range(m.len(), nodes[a].kids()));
        } else {
            assert(m.knows(m.nodes[i][a]));
        }
    }
    assert forall|i: int, e: int|
        #![trigger n.parents[i][e]]
        0 <= i < n.len() && 0 <= e < n.parents[i].len() implies n.entry_ok(n.parents[i][e]) by {
        assert(m.entry_ok(m.parents[i][e]));
    }
    assert forall|key: L| #[trigger] n.memo.contains_key(key) implies n.knows(key) && n.has(
        n.memo[key],
    ) by {
        assert(m.memo.contains_key(key));
    }
}

impl<L: Language, N: ClassData> EGraph<L, N> {
    /// Reconstruct the hashcons table and drop duplicate e-nodes per class.
    ///
    /// After a batch of merges the table may hold keys whose children point to
    /// absorbed classes. Rather than track and prune each stale key, clear the
    /// table and re-intern every live node in canonical form.
    fn collect_memo(&mut self)
        requires
            old(self).wf(),
            old(self).model().pending.len() == 0,
        ensures
            final(self).wf(),
            collected(old(self).model(), final(self).model()),
            final(self).edges() == old(self).edges(),
            final(self).terms() == old(self).terms(),
            final(self).watchers() == old(self).watchers(),
            final(self).stale() == old(self).stale(),
            final(self).reason() == old(self).reason(),
            forall|k: Id|
                #![trigger final(self).class_data(k)]
                old(self).model().has(k) ==> final(self).class_data(k) == old(self).class_data(k),
    {
        let ghost m = self.model();
        proof {
            self.lemma_safe();
            lemma_key::<L>();
        }
        self.memo.clear();
        proof {
            assert(self.model() == (Model { memo: Map::empty(), ..m }));
            assert(self.edges() == old(self).edges());
            assert(self.model().shape()) by {
                let n = self.model();
                assert forall|i: int, a: int|
                    #![trigger n.nodes[i][a]]
                    0 <= i < n.len() && 0 <= a < n.nodes[i].len() implies n.knows(n.nodes[i][a]) by {
                    assert(m.knows(m.nodes[i][a]));
                }
                assert forall|i: int, e: int|
                    #![trigger n.parents[i][e]]
                    0 <= i < n.len() && 0 <= e < n.parents[i].len() implies n.entry_ok(
                    n.parents[i][e],
                ) by {
                    assert(m.entry_ok(m.parents[i][e]));
                }
            }
            assert(self.safe());
        }
        let mut i: usize = 0;
        while i < self.classes.len()
            invariant
                lawful::<L>(),
                m == old(self).model(),
                m.shape(),
                m.consistent(),
                m.pending.len() == 0,
                self.safe(),
                i <= self.classes@.len() == m.len(),
                self.model().roots == m.roots,
                self.model().parents == m.parents,
                self.model().pending == m.pending,
                self.edges() == old(self).edges(),
                self.terms() == old(self).terms(),
                self.watchers() == old(self).watchers(),
                self.stale() == old(self).stale(),
                self.reason() == old(self).reason(),
                forall|k: Id|
                    #![trigger self.class_data(k)]
                    m.has(k) ==> self.class_data(k) == old(self).class_data(k),
                self.model().nodes.len() == m.len(),
                forall|k: int|
                    #![trigger self.model().nodes[k]]
                    i <= k < m.len() ==> self.model().nodes[k] == m.nodes[k],
                forall|k: int|
                    #![trigger self.model().nodes[k]]
                    0 <= k < i ==> self.model().nodes[k] == forms(m.roots, m.nodes[k]),
                forall|k: int, b: int|
                    #![trigger self.model().nodes[k][b]]
                    0 <= k < i && 0 <= b < self.model().nodes[k].len()
                        ==> self.model().memo.contains_key(self.model().nodes[k][b])
                        && self.model().memo[self.model().nodes[k][b]] == Id(k as u32),
                forall|key: L| #[trigger]
                    self.model().memo.contains_key(key) ==> self.model().memo[key].at() < i
                        && self.model().nodes[self.model().memo[key].at()].contains(key),
            decreases self.classes@.len() - i,
        {
            let ghost before = *self;
            let ghost was = self.model();
            let ghost fresh = forms(m.roots, m.nodes[i as int]);
            proof {
                self.lemma_safe();
                assert(was.nodes[i as int] == m.nodes[i as int]);
            }
            if self.classes[i].is_some() {
                let id = Id(i as u32);
                self.collect_class(id);
                proof {
                    let n = self.model();
                    assert forall|k: int, b: int|
                        #![trigger n.nodes[k][b]]
                        0 <= k < i + 1 && 0 <= b < n.nodes[k].len() implies n.memo.contains_key(
                        n.nodes[k][b],
                    ) && n.memo[n.nodes[k][b]] == Id(k as u32) by {
                        let key = n.nodes[k][b];
                        assert(interns(was.memo, n.memo, fresh, id));
                        if k == i {
                            assert(n.nodes[k] == fresh);
                            assert(fresh[b] == key);
                            assert(n.memo.contains_key(key));
                        } else {
                            assert(n.nodes[k] == was.nodes[k]);
                            assert(was.nodes[k][b] == key);
                            assert(was.memo.contains_key(was.nodes[k][b]));
                            assert(forms(m.roots, m.nodes[k]).contains(key)) by {
                                assert(was.nodes[k][b] == key);
                            }
                            if fresh.contains(key) {
                                lemma_forms_apart(m, k, i as int, key);
                            }
                            assert(n.memo.contains_key(key));
                        }
                    }
                    assert forall|key: L| #[trigger] n.memo.contains_key(key) implies n.memo[key].at()
                        < i + 1 && n.nodes[n.memo[key].at()].contains(key) by {
                        if !fresh.contains(key) {
                            assert(was.memo.contains_key(key));
                            assert(n.nodes[n.memo[key].at()] == was.nodes[n.memo[key].at()]);
                        }
                    }
                    assert forall|k: Id| m.has(k) implies #[trigger] self.class_data(k)
                        == old(self).class_data(k) by {
                        assert(before.class_data(k) == old(self).class_data(k));
                    }
                }
            } else {
                assert(m.nodes[i as int].len() == 0);
                assert(fresh =~= Seq::empty());
                assert(m.nodes[i as int] =~= fresh);
            }
            i = i + 1;
        }
        proof {
            let n = self.model();
            assert forall|k: int, b: int|
                #![trigger n.nodes[k][b]]
                0 <= k < n.len() && 0 <= b < n.nodes[k].len() implies is_canonical(
                n.roots,
                n.nodes[k][b],
            ) by {
                lemma_class_forms(m, k);
                assert(is_canonical(m.roots, forms(m.roots, m.nodes[k])[b]));
            }
            assert forall|k: int| #![trigger n.nodes[k]] 0 <= k < n.len() implies n.nodes[k].no_duplicates() by {
                lemma_class_forms(m, k);
            }
            assert(tidy(n));
            lemma_collected(m, n);
        }
    }
}

/// How often the data in a row of the class table can still change.
spec fn row_height<L: Language, N: ClassData>(row: Option<EClass<L, N>>) -> nat {
    match row {
        Some(class) => N::height(&class.data),
        None => 0,
    }
}

/// How often the data of the first `n` classes can still change.
spec fn total_height<L: Language, N: ClassData>(classes: Seq<Option<EClass<L, N>>>, n: nat) -> nat
    decreases n,
{
    if n == 0 {
        0
    } else {
        total_height(classes, (n - 1) as nat) + row_height(classes[n - 1])
    }
}

proof fn lemma_total_height<L: Language, N: ClassData>(
    before: Seq<Option<EClass<L, N>>>,
    after: Seq<Option<EClass<L, N>>>,
    k: int,
    n: nat,
)
    requires
        n <= before.len(),
        after.len() == before.len(),
        0 <= k < before.len(),
        forall|i: int| #![trigger after[i]] 0 <= i < before.len() && i != k ==> after[i] == before[i],
    ensures
        total_height(after, n) + if k < n {
            row_height(before[k])
        } else {
            0
        } == total_height(before, n) + if k < n {
            row_height(after[k])
        } else {
            0
        },
    decreases n,
{
    if n > 0 {
        lemma_total_height(before, after, k, (n - 1) as nat);
    }
}

/// Only the analysis data differs.
pub open spec fn same_but_data<L: Language, N: ClassData>(
    old: &EGraph<L, N>,
    new: &EGraph<L, N>,
) -> bool {
    &&& new.model() == old.model()
    &&& new.edges() == old.edges()
    &&& new.terms() == old.terms()
    &&& new.watchers() == old.watchers()
    &&& new.reason() == old.reason()
}

impl<L: Language, N: Analysis<L>> EGraph<L, N> {
    /// Merge `value` into the data of the class `id`.
    fn join_data(&mut self, id: Id, value: N::Data) -> (changed: bool)
        requires
            old(self).safe(),
            old(self).model().has(id),
            old(self).model().root(id) == id,
        ensures
            final(self).safe(),
            same_but_data(old(self), final(self)),
            final(self).stale() == old(self).stale(),
            final(self).classes@.len() == old(self).classes@.len(),
            forall|k: Id|
                #![trigger final(self).class_data(k)]
                old(self).model().has(k) && (k != id || !changed) ==> final(self).class_data(k)
                    == old(self).class_data(k),
            N::joined(&old(self).class_data(id), &value, &final(self).class_data(id), changed),
            changed ==> N::height(&final(self).class_data(id)) < N::height(
                &old(self).class_data(id),
            ),
            N::covers(&final(self).class_data(id), &value),
            forall|other: &N::Data| #[trigger]
                N::covers(&old(self).class_data(id), other) ==> N::covers(
                    &final(self).class_data(id),
                    other,
                ),
            changed ==> total_height(final(self).classes@, final(self).classes@.len())
                < total_height(old(self).classes@, old(self).classes@.len()),
            !changed ==> total_height(final(self).classes@, final(self).classes@.len())
                == total_height(old(self).classes@, old(self).classes@.len()),
    {
        let ghost before = self.classes@;
        let changed = self.analysis.merge(
            &mut self.classes[id.0 as usize].as_mut().unwrap().data,
            value,
        );
        proof {
            lemma_total_height(before, self.classes@, id.at(), before.len());
            assert(self.model().nodes =~= old(self).model().nodes);
            assert(self.model().parents =~= old(self).model().parents);
            assert(self.model() == old(self).model());
            assert(self.edges() == old(self).edges());
        }
        changed
    }

    /// Recompute analysis data bottom-up from the changed classes, cascading
    /// to parents until a fixpoint. Returns every class whose data may have
    /// changed (so that `modify` can run on them).
    fn propagate_analysis(&mut self) -> (changed: Vec<Id>)
        requires
            old(self).wf(),
        ensures
            final(self).wf(),
            same_but_data(old(self), final(self)),
            final(self).stale().len() == 0,
            in_range(final(self).model().len(), changed@),
            only_carried(old(self), final(self)),
            forall|i: int|
                #![trigger changed@[i]]
                0 <= i < changed@.len() ==> old(self).model().root(changed@[i]) == changed@[i]
                    && moved(old(self), final(self), changed@[i]),
            forall|i: int|
                #![trigger old(self).stale()[i]]
                0 <= i < old(self).stale().len() ==> changed@.contains(
                    old(self).model().root(old(self).stale()[i]),
                ),
            forall|k: Id|
                #![trigger final(self).class_data(k)]
                old(self).model().has(k) && final(self).class_data(k) != old(self).class_data(k)
                    ==> changed@.contains(k),
            made_by_operator::<L, N>() ==> forall|i: int|
                #![trigger changed@[i]]
                0 <= i < changed@.len() ==> caught_up(final(self), changed@[i]),
    {
        let ghost m = self.model();
        proof {
            self.lemma_safe();
        }
        let mut worklist: Vec<Id> = Vec::new();
        std::mem::swap(&mut worklist, &mut self.analysis_pending);
        let ghost first = worklist@;
        assert(self.model() == m);
        assert(self.edges() == old(self).edges());
        let mut changed: Vec<Id> = Vec::new();
        proof {
            assert(same_data(old(self), self));
            lemma_carried_start(old(self), self);
            assert forall|i: int| #![trigger first[i]] 0 <= i < first.len() implies stirred(
                old(self),
                self,
                m.root(first[i]),
            ) by {
                assert(m.roots[first[i].at()] == m.root(first[i]));
            }
        }
        while worklist.len() > 0
            invariant
                self.wf(),
                m == old(self).model(),
                m.shape(),
                first == old(self).stale(),
                same_but_data(old(self), self),
                self.stale().len() == 0,
                in_range(m.len(), worklist@),
                in_range(m.len(), changed@),
                only_carried(old(self), self),
                not_higher(old(self), self),
                forall|i: int|
                    #![trigger worklist@[i]]
                    0 <= i < worklist@.len() ==> stirred(old(self), self, m.root(worklist@[i])),
                forall|i: int|
                    #![trigger changed@[i]]
                    0 <= i < changed@.len() ==> m.root(changed@[i]) == changed@[i] && stirred(
                        old(self),
                        self,
                        changed@[i],
                    ),
                made_by_operator::<L, N>() ==> all_attended(self, worklist@, changed@),
                forall|i: int|
                    #![trigger first[i]]
                    0 <= i < first.len() ==> worklist@.contains(first[i]) || changed@.contains(
                        m.root(first[i]),
                    ),
                forall|k: Id|
                    #![trigger self.class_data(k)]
                    m.has(k) && self.class_data(k) != old(self).class_data(k) ==> m.root(k) == k && (
                    worklist@.contains(k) || changed@.contains(k)),
            decreases total_height(self.classes@, self.classes@.len()), worklist.len(),
        {
            let ghost (list, done) = (worklist@, changed@);
            let ghost head = *self;
            assert(m.has(list[list.len() - 1]));
            let next = worklist.pop().unwrap();
            let id = self.find(next);
            changed.push(id);
            let ghost rest = worklist@;
            proof {
                self.lemma_safe();
                assert(changed@[done.len() as int] == id);
                assert(stirred(old(self), &head, m.root(list[list.len() - 1])));
                assert(same_data(&head, self)) by {
                    assert forall|k: Id| #![trigger self.class_data(k)] m.has(k) implies self.class_data(
                        k,
                    ) == head.class_data(k) by {}
                }
                lemma_carried_quiet(old(self), &head, self);
                lemma_still_stirred(old(self), &head, self);
                assert forall|i: int|
                    #![trigger rest[i]]
                    0 <= i < rest.len() implies stirred(old(self), self, m.root(rest[i])) by {
                    assert(rest[i] == list[i]);
                    assert(m.has(list[i]));
                }
                assert forall|i: int|
                    #![trigger changed@[i]]
                    0 <= i < changed@.len() implies m.root(changed@[i]) == changed@[i] && stirred(
                    old(self),
                    self,
                    changed@[i],
                ) by {
                    if i < done.len() {
                        assert(changed@[i] == done[i]);
                        assert(m.has(done[i]));
                    }
                }
                assert forall|x: Id| list.contains(x) && x != next implies #[trigger] rest.contains(
                    x,
                ) by {
                    let i = choose|i: int| 0 <= i < list.len() && list[i] == x;
                    assert(rest[i] == x);
                }
                assert forall|x: Id| done.contains(x) implies #[trigger] changed@.contains(x) by {
                    let i = choose|i: int| 0 <= i < done.len() && done[i] == x;
                    assert(changed@[i] == x);
                }
                assert forall|k: Id|
                    #![trigger self.class_data(k)]
                    m.has(k) && self.class_data(k) != old(self).class_data(k) implies m.root(k) == k
                    && (rest.contains(k) || changed@.contains(k)) by {
                    assert(head.class_data(k) == self.class_data(k));
                }
                lemma_same_heights(&head, self);
                if made_by_operator::<L, N>() {
                    assert forall|i: int| #![trigger done[i]] 0 <= i < done.len() implies m.has(
                        done[i],
                    ) by {}
                    lemma_taken_off(&head, self, done, list, id);
                    assert(rest == list.drop_last());
                }
            }
            // Recompute the data of each parent referencing this class and
            // merge it into the class that owns the parent.
            let ghost held = changed@;
            let mut j: usize = 0;
            while j < self.classes[id.0 as usize].as_ref().unwrap().parents.len()
                invariant
                    self.wf(),
                    m == old(self).model(),
                    m.shape(),
                    m.has(id),
                    m.root(id) == id,
                    j <= m.parents[id.at()].len(),
                    same_but_data(old(self), self),
                    self.stale().len() == 0,
                    self.classes@.len() == head.classes@.len(),
                    in_range(m.len(), worklist@),
                    in_range(m.len(), done),
                    changed@ == held,
                    in_range(m.len(), held),
                    only_carried(old(self), self),
                    not_higher(old(self), self),
                    forall|i: int|
                        #![trigger worklist@[i]]
                        0 <= i < worklist@.len() ==> stirred(old(self), self, m.root(worklist@[i])),
                    forall|i: int|
                        #![trigger held[i]]
                        0 <= i < held.len() ==> m.root(held[i]) == held[i] && stirred(
                            old(self),
                            self,
                            held[i],
                        ),
                    made_by_operator::<L, N>() ==> attended_but(self, worklist@, done, id)
                        && attended_upto(self, worklist@, id, j as int),
                    forall|x: Id| rest.contains(x) ==> #[trigger] worklist@.contains(x),
                    forall|k: Id|
                        #![trigger self.class_data(k)]
                        m.has(k) && self.class_data(k) != old(self).class_data(k) ==> m.root(k) == k && (
                        worklist@.contains(k) || changed@.contains(k)),
                    total_height(self.classes@, self.classes@.len()) < total_height(
                        head.classes@,
                        head.classes@.len(),
                    ) || (total_height(self.classes@, self.classes@.len()) == total_height(
                        head.classes@,
                        head.classes@.len(),
                    ) && worklist@ == rest),
                decreases m.parents[id.at()].len() - j,
            {
                let ghost before = *self;
                let ghost queue = worklist@;
                proof {
                    assert(self.model().parents[id.at()].len() == self.classes@[id.at()]->0.parents.len());
                    assert(m.entry_ok(m.parents[id.at()][j as int]));
                    assert(m.parents[id.at()][j as int] == self.classes@[id.at()]->0.parents@[j as int]);
                }
                let raw = self.classes[id.0 as usize].as_ref().unwrap().parents[j].1;
                let owner = self.find(raw);
                let ghost found = *self;
                assert(m.parents[id.at()] == self.classes@[id.at()]->0.parents@) by {
                    assert(self.model().parents == m.parents);
                }
                let value = N::make(self, &self.classes[id.0 as usize].as_ref().unwrap().parents[j].0);
                let ghost data = value;
                let ghost entry = m.parents[id.at()][j as int];
                assert(N::made(found.kid_data(entry.0), &entry.0, &data));
                let did_change = self.join_data(owner, value);
                proof {
                    lemma_same_heights(&before, &found);
                    assert forall|k: Id|
                        m.has(k) && (k != owner || !did_change) implies #[trigger] self.class_data(k)
                        == before.class_data(k) by {
                        assert(found.class_data(k) == before.class_data(k));
                    }
                    assert(same_data(&before, &found)) by {
                        assert forall|k: Id| #![trigger found.class_data(k)] m.has(
                            k,
                        ) implies found.class_data(k) == before.class_data(k) by {}
                    }
                    lemma_carried_quiet(old(self), &before, &found);
                    assert(data_step(&found, &*self, id.at(), j as int, data)) by {
                        assert(found.model().parents[id.at()][j as int] == entry);
                        assert(N::joined(
                            &found.class_data(owner),
                            &data,
                            &self.class_data(owner),
                            did_change,
                        ));
                    }
                    lemma_carried_more(old(self), &found, self, id.at(), j as int, data);
                    assert(not_higher(old(self), self)) by {
                        assert forall|k: Id| #![trigger self.class_data(k)] m.has(k) implies N::height(
                            &self.class_data(k),
                        ) <= N::height(&old(self).class_data(k)) by {
                            assert(N::height(&before.class_data(k)) <= N::height(
                                &old(self).class_data(k),
                            ));
                            assert(found.class_data(k) == before.class_data(k));
                            if k != owner || !did_change {
                                assert(self.class_data(k) == before.class_data(k));
                            }
                        }
                    }
                    assert forall|k: Id| m.has(k) && #[trigger] stirred(
                        old(self),
                        &before,
                        k,
                    ) implies stirred(old(self), self, k) by {
                        assert(found.class_data(k) == before.class_data(k));
                        if k != owner || !did_change {
                            assert(self.class_data(k) == before.class_data(k));
                        }
                    }
                    assert forall|i: int|
                        #![trigger queue[i]]
                        0 <= i < queue.len() implies stirred(old(self), self, m.root(queue[i])) by {
                        assert(m.has(queue[i]));
                        assert(stirred(old(self), &before, m.root(queue[i])));
                    }
                    assert forall|i: int|
                        #![trigger held[i]]
                        0 <= i < held.len() implies stirred(old(self), self, held[i]) by {
                        assert(m.has(held[i]));
                        assert(stirred(old(self), &before, held[i]));
                    }
                    if did_change {
                        assert(N::height(&before.class_data(owner)) <= N::height(
                            &old(self).class_data(owner),
                        ));
                        assert(stirred(old(self), self, owner));
                    }
                }
                if did_change {
                    worklist.push(owner);
                    assert forall|x: Id| queue.contains(x) implies #[trigger] worklist@.contains(x) by {
                        let i = choose|i: int| 0 <= i < queue.len() && queue[i] == x;
                        assert(worklist@[i] == x);
                    }
                    assert(worklist@[queue.len() as int] == owner);
                    assert forall|i: int|
                        #![trigger worklist@[i]]
                        0 <= i < worklist@.len() implies stirred(
                        old(self),
                        self,
                        m.root(worklist@[i]),
                    ) by {
                        if i < queue.len() {
                            assert(worklist@[i] == queue[i]);
                        }
                    }
                }
                proof {
                    if made_by_operator::<L, N>() {
                        lemma_propagated(
                            &before,
                            &found,
                            self,
                            queue,
                            worklist@,
                            owner,
                            done,
                            id,
                            j as int,
                            data,
                        );
                    }
                }
                j = j + 1;
                proof {
                    assert forall|k: Id|
                        #![trigger self.class_data(k)]
                        m.has(k) && self.class_data(k) != old(self).class_data(k) implies m.root(k)
                        == k && (worklist@.contains(k) || changed@.contains(k)) by {
                        if k != owner || !did_change {
                            assert(before.class_data(k) == self.class_data(k));
                            assert(queue.contains(k) || changed@.contains(k));
                        }
                    }
                }
            }
            assert forall|i: int| #![trigger first[i]] 0 <= i < first.len() implies worklist@.contains(
                first[i],
            ) || changed@.contains(m.root(first[i])) by {
                if list.contains(first[i]) && first[i] != next {
                    assert(rest.contains(first[i]));
                } else if done.contains(m.root(first[i])) {
                    assert(changed@.contains(m.root(first[i])));
                }
            }
            proof {
                if made_by_operator::<L, N>() {
                    self.lemma_safe();
                    assert(changed@ == done.push(id));
                    lemma_all_attended(self, worklist@, done, id);
                }
            }
        }
        proof {
            if made_by_operator::<L, N>() {
                lemma_nothing_waits(self, worklist@, changed@);
            }
            assert forall|i: int|
                #![trigger changed@[i]]
                0 <= i < changed@.len() implies moved(old(self), self, changed@[i]) by {
                assert(stirred(old(self), self, changed@[i]));
            }
        }
        changed
    }
}

/// The data of class `k` waited for the analysis, or can change less often than
/// before.
spec fn stirred<L: Language, N: ClassData>(old: &EGraph<L, N>, now: &EGraph<L, N>, k: Id) -> bool {
    queued(old.model().roots, old.stale(), k) || N::height(&now.class_data(k)) < N::height(
        &old.class_data(k),
    )
}

/// No data can change more often than before.
spec fn not_higher<L: Language, N: ClassData>(old: &EGraph<L, N>, now: &EGraph<L, N>) -> bool {
    forall|k: Id|
        #![trigger now.class_data(k)]
        old.model().has(k) ==> N::height(&now.class_data(k)) <= N::height(&old.class_data(k))
}

/// Where the data is the same, nothing changes about that.
proof fn lemma_still_stirred<L: Language, N: ClassData>(
    old: &EGraph<L, N>,
    now: &EGraph<L, N>,
    next: &EGraph<L, N>,
)
    requires
        now.model() == old.model(),
        same_data(now, next),
        not_higher(old, now),
    ensures
        not_higher(old, next),
        forall|k: Id|
            old.model().has(k) && #[trigger] stirred(old, now, k) ==> stirred(old, next, k),
{
    assert forall|k: Id| #![trigger next.class_data(k)] old.model().has(k) implies N::height(
        &next.class_data(k),
    ) <= N::height(&old.class_data(k)) by {
        assert(next.class_data(k) == now.class_data(k));
    }
    assert forall|k: Id| old.model().has(k) && #[trigger] stirred(old, now, k) implies stirred(
        old,
        next,
        k,
    ) by {
        assert(next.class_data(k) == now.class_data(k));
    }
}

/// Computing one parent anew attends to it, and leaves the others attended to.
proof fn lemma_propagated<L: Language, N: Analysis<L>>(
    before: &EGraph<L, N>,
    found: &EGraph<L, N>,
    after: &EGraph<L, N>,
    work: Seq<Id>,
    more: Seq<Id>,
    owner: Id,
    list: Seq<Id>,
    id: Id,
    j: int,
    data: N::Data,
)
    requires
        before.wf(),
        before.same(found),
        after.model() == before.model(),
        before.model().has(id),
        in_range(before.model().len(), list),
        0 <= j < before.model().parents[id.at()].len(),
        owner == before.model().root(before.model().parents[id.at()][j].1),
        forall|k: Id|
            #![trigger after.class_data(k)]
            before.model().has(k) && k != owner ==> after.class_data(k) == before.class_data(k),
        (after.class_data(owner) == before.class_data(owner) && more == work) || more
            == work.push(owner),
        N::covers(&after.class_data(owner), &data),
        forall|other: &N::Data| #[trigger]
            N::covers(&found.class_data(owner), other) ==> N::covers(
                &after.class_data(owner),
                other,
            ),
        N::made(
            found.kid_data(before.model().parents[id.at()][j].0),
            &before.model().parents[id.at()][j].0,
            &data,
        ),
        attended_but(before, work, list, id),
        attended_upto(before, work, id, j),
    ensures
        attended_but(after, more, list, id),
        attended_upto(after, more, id, j + 1),
{
    before.lemma_safe();
    let m = before.model();
    let entry = m.parents[id.at()][j];
    assert(m.entry_ok(m.parents[id.at()][j]));
    assert(m.root(owner) == owner && m.has(owner));
    assert(found.class_data(owner) == before.class_data(owner));
    assert(gained(before, after, work, more, owner));
    assert forall|i: int| #![trigger list[i]] 0 <= i < list.len() implies m.has(list[i]) by {}
    lemma_all_gained(before, after, work, more, owner, list, id, j);
    // The entry itself: its children's data is that of before, or its own
    // class is one of them and waits.
    let node = entry.0;
    if mentions(m.roots, node, owner) && more == work.push(owner) {
        let i = choose|i: int|
            0 <= i < node.kids().len() && m.roots[(#[trigger] node.kids()[i]).at()] == owner;
        assert(more[work.len() as int] == owner);
        assert(queued(m.roots, more, m.roots[node.kids()[i].at()]));
        assert(waits(m.roots, more, node));
    } else {
        assert(after.kid_data(node) =~= found.kid_data(node)) by {
            assert forall|i: int| 0 <= i < node.kids().len() implies after.kid_data(node)[i]
                == found.kid_data(node)[i] by {
                assert(m.has(node.kids()[i]));
                let kid = m.root(node.kids()[i]);
                assert(m.has(kid));
                assert(found.class_data(kid) == before.class_data(kid));
                if kid == owner {
                    assert(m.roots[node.kids()[i].at()] == owner);
                } else {
                    assert(after.class_data(kid) == before.class_data(kid));
                }
            }
        }
        assert(N::made(after.kid_data(node), &node, &data));
        assert(up_to_date(after, node, entry.1));
    }
    assert(attended(after, more, m.parents[id.at()][j]));
}

/// With an empty list all entries are up to date.
proof fn lemma_nothing_waits<L: Language, N: Analysis<L>>(
    egraph: &EGraph<L, N>,
    work: Seq<Id>,
    list: Seq<Id>,
)
    requires
        work.len() == 0,
        all_attended(egraph, work, list),
    ensures
        forall|i: int|
            #![trigger list[i]]
            0 <= i < list.len() ==> caught_up(egraph, list[i]),
{
    assert forall|i: int| #![trigger list[i]] 0 <= i < list.len() implies caught_up(
        egraph,
        list[i],
    ) by {
        assert forall|e: int|
            #![trigger egraph.model().parents[list[i].at()][e]]
            0 <= e < egraph.model().parents[list[i].at()].len() implies up_to_date(
            egraph,
            egraph.model().parents[list[i].at()][e].0,
            egraph.model().parents[list[i].at()][e].1,
        ) by {
            assert(attended(egraph, work, egraph.model().parents[list[i].at()][e]));
        }
    }
}

/// Compressing paths changes no data.
proof fn lemma_same_heights<L: Language, N: ClassData>(a: &EGraph<L, N>, b: &EGraph<L, N>)
    requires
        a.safe(),
        b.safe(),
        a.same(b),
    ensures
        b.classes@.len() == a.classes@.len(),
        total_height(b.classes@, b.classes@.len()) == total_height(a.classes@, a.classes@.len()),
{
    lemma_heights_equal(a, b, a.classes@.len());
}

proof fn lemma_heights_equal<L: Language, N: ClassData>(
    a: &EGraph<L, N>,
    b: &EGraph<L, N>,
    n: nat,
)
    requires
        a.safe(),
        b.safe(),
        a.same(b),
        n <= a.classes@.len(),
    ensures
        total_height(b.classes@, n) == total_height(a.classes@, n),
    decreases n,
{
    if n > 0 {
        lemma_heights_equal(a, b, (n - 1) as nat);
        let id = Id((n - 1) as u32);
        a.lemma_safe();
        assert(a.model().roots == b.model().roots);
        assert(b.class_data(id) == a.class_data(id));
        assert(a.classes@[n - 1] is Some <==> b.classes@[n - 1] is Some);
    }
}

/// A graph that grew has more ids, or the same ids in fewer classes, or still
/// has nothing that waits.
proof fn lemma_grows_measure<L: Language, N: ClassData>(a: &EGraph<L, N>, b: &EGraph<L, N>)
    requires
        a.safe(),
        b.safe(),
        a.grows_into(b),
    ensures
        a.model().len() <= b.model().len(),
        a.model().len() == b.model().len() ==> classes_of(b.model().roots) <= classes_of(
            a.model().roots,
        ),
        a.settled() ==> b.settled() || a.model().len() < b.model().len() || classes_of(
            b.model().roots,
        ) < classes_of(a.model().roots),
{
    a.lemma_safe();
    let events = choose|events: Seq<HookEvent<L>>| #[trigger] a.evolved(b, events);
    lemma_events_progress(a.model().roots, events);
}

/// On the way from `old` to `new` the analysis was called on class `id`.
#[verifier::opaque]
pub open spec fn modify_called<L: Language, N: Analysis<L>>(
    old: &EGraph<L, N>,
    new: &EGraph<L, N>,
    id: Id,
) -> bool {
    exists|before: &EGraph<L, N>, after: &EGraph<L, N>|
        {
            &&& #[trigger] N::modified(before, id, after)
            &&& before.wf() && before.model().has(id) && before.model().root(id) == id
            &&& after.wf()
            &&& old.grows_into(before)
            &&& after.grows_into(new)
        }
}

/// On the way from `old` to `new` the analysis was called on a class that `k`
/// belongs to by the end.
pub open spec fn modify_ran<L: Language, N: Analysis<L>>(
    old: &EGraph<L, N>,
    new: &EGraph<L, N>,
    k: Id,
) -> bool {
    exists|id: Id| #[trigger]
        modify_called(old, new, id) && new.model().has(id) && new.model().root(id)
            == new.model().root(k)
}

/// What was called stays called.
proof fn lemma_called_grows<L: Language, N: Analysis<L>>(
    old: &EGraph<L, N>,
    new: &EGraph<L, N>,
    last: &EGraph<L, N>,
    id: Id,
)
    requires
        new.wf(),
        last.wf(),
        new.grows_into(last),
        modify_called(old, new, id),
    ensures
        modify_called(old, last, id),
{
    reveal(modify_called);
    let (before, after) = choose|before: &EGraph<L, N>, after: &EGraph<L, N>|
        {
            &&& #[trigger] N::modified(before, id, after)
            &&& before.wf() && before.model().has(id) && before.model().root(id) == id
            &&& after.wf()
            &&& old.grows_into(before)
            &&& after.grows_into(new)
        };
    EGraph::lemma_grows_trans(after, new, last);
    assert(N::modified(before, id, after));
}

/// A call on a class of `k` stays one.
proof fn lemma_ran_grows<L: Language, N: Analysis<L>>(
    old: &EGraph<L, N>,
    new: &EGraph<L, N>,
    last: &EGraph<L, N>,
    k: Id,
)
    requires
        new.wf(),
        last.wf(),
        new.grows_into(last),
        new.model().has(k),
        modify_ran(old, new, k),
    ensures
        modify_ran(old, last, k),
{
    let id = choose|id: Id| #[trigger]
        modify_called(old, new, id) && new.model().has(id) && new.model().root(id)
            == new.model().root(k);
    lemma_called_grows(old, new, last, id);
    let events = choose|events: Seq<HookEvent<L>>| #[trigger] new.evolved(last, events);
    assert(new.model().roots[id.at()] == new.model().roots[k.at()]);
    assert(last.model().roots[id.at()] == last.model().roots[k.at()]);
}

impl<L: Language, N: Analysis<L>> EGraph<L, N> {
    /// Run `modify` once on every class of `changed`.
    fn run_modify(&mut self, changed: Vec<Id>)
        requires
            old(self).wf(),
            in_range(old(self).model().len(), changed@),
        ensures
            final(self).wf(),
            old(self).grows_into(final(self)),
            N::inert() ==> old(self).same(final(self)),
            only_modified(old(self), final(self), changed@),
            forall|i: int|
                #![trigger changed@[i]]
                0 <= i < changed@.len() ==> modify_ran(old(self), final(self), changed@[i]),
    {
        let ghost mut calls: Set<Id> = Set::empty();
        proof {
            self.lemma_grows_refl();
            assert(changed@.take(0).len() == 0);
            assert(modified_by(old(self), self, changed@.take(0), calls));
        }
        let mut seen: HashSet<u32> = HashSet::new();
        let mut i: usize = 0;
        while i < changed.len()
            invariant
                i <= changed.len(),
                old(self).wf(),
                self.wf(),
                in_range(old(self).model().len(), changed@),
                old(self).grows_into(self),
                N::inert() ==> old(self).same(self),
                forall|k: int|
                    #![trigger changed@[k]]
                    0 <= k < i ==> modify_ran(old(self), self, changed@[k]),
                forall|x: u32| #[trigger]
                    seen@.contains(x) ==> self.model().has(Id(x)) && modify_called(
                        old(self),
                        self,
                        Id(x),
                    ),
                modified_by(old(self), self, changed@.take(i as int), calls),
                forall|id: Id| #[trigger] calls.contains(id) <==> seen@.contains(id.0),
            decreases changed.len() - i,
        {
            let ghost before = *self;
            proof {
                lemma_grows_measure(old(self), self);
                assert(old(self).model().has(changed@[i as int]));
            }
            let id = self.find(changed[i]);
            let ghost found = *self;
            proof {
                before.lemma_same_evolved(self);
                assert(before.grows_into(self));
                EGraph::lemma_grows_trans(old(self), &before, self);
                if N::inert() {
                    lemma_same_trans(old(self), &before, self);
                }
            }
            let ghost had = seen@;
            assert forall|x: u32| #[trigger] had.contains(x) implies modify_called(
                old(self),
                &found,
                Id(x),
            ) by {
                lemma_called_grows(old(self), &before, &found, Id(x));
            }
            proof {
                found.lemma_safe();
                found.lemma_grows_refl();
            }
            let ghost already = calls;
            if seen.insert(id.0) {
                N::modify(self, id);
                proof {
                    calls = already.insert(id);
                    assert forall|other: Id| #[trigger] calls.contains(other) <==> seen@.contains(
                        other.0,
                    ) by {
                        assert(already.contains(other) <==> had.contains(other.0));
                        assert(other == id <==> other.0 == id.0);
                    }
                }
                proof {
                    EGraph::lemma_grows_trans(old(self), &found, self);
                    self.lemma_grows_refl();
                    assert(modify_called(old(self), self, id)) by {
                        reveal(modify_called);
                        assert(N::modified(&found, id, self));
                    }
                }
            }
            proof {
                assert(already.contains(id) <==> had.contains(id.0));
                assert(modify_step(&before, &found, &*self, changed@[i as int], already, calls));
                let (list, more) = (changed@.take(i as int), changed@.take(i + 1));
                assert(more.drop_last() =~= list && more.last() == changed@[i as int]);
                assert(modified_by(old(self), self, more, calls));
                lemma_grows_measure(&found, self);
                EGraph::lemma_grows_trans(&before, &found, self);
                assert forall|x: u32| #[trigger] seen@.contains(x) implies self.model().has(Id(x))
                    && modify_called(old(self), self, Id(x)) by {
                    if had.contains(x) {
                        lemma_called_grows(old(self), &found, self, Id(x));
                    } else {
                        assert(Id(x) == id);
                    }
                }
                assert forall|k: int| #![trigger changed@[k]] 0 <= k < i + 1 implies modify_ran(
                    old(self),
                    self,
                    changed@[k],
                ) by {
                    if k < i {
                        lemma_grows_measure(old(self), &before);
                        assert(before.model().has(changed@[k]));
                        lemma_ran_grows(old(self), &before, self, changed@[k]);
                    } else {
                        assert(seen@.contains(id.0));
                        assert(Id(id.0) == id);
                        assert(modify_called(old(self), &*self, id));
                        let events = choose|events: Seq<HookEvent<L>>| #[trigger]
                            found.evolved(self, events);
                        assert(found.model().roots[id.at()]
                            == found.model().roots[changed@[k].at()]);
                        assert(self.model().roots[id.at()]
                            == self.model().roots[changed@[k].at()]);
                    }
                }
            }
            i = i + 1;
        }
        proof {
            reveal(only_modified);
            assert(changed@.take(i as int) =~= changed@);
            assert(modified_by(old(self), self, changed@, calls));
        }
    }

    /// Restore congruence: after merges, re-canonicalize parent e-nodes and
    /// merge any that became structurally identical, until nothing changes.
    /// Then let the analysis react, and start over if it changed the graph.
    ///
    /// What becomes equal is exactly what congruence forces, as long as the
    /// analysis leaves the graph alone.
    pub fn rebuild(&mut self)
        requires
            old(self).wf(),
        ensures
            final(self).wf(),
            final(self).settled(),
            tidy(final(self).model()),
            old(self).grows_into(final(self)),
            N::inert() ==> {
                &&& final(self).model().len() == old(self).model().len()
                &&& final(self).terms() == old(self).terms()
                &&& forced(old(self).model(), final(self).model().roots)
                &&& stems_from(old(self).model(), final(self).model())
                &&& edges_by_congruence(old(self), final(self))
            },
            N::inert() && made_by_operator::<L, N>() ==> all_caught_up(
                final(self),
                old(self).stale(),
            ),
            old(self).settled() && tidy(old(self).model()) ==> old(self).alike(final(self)),
            passes_done(old(self), final(self)),
    {
        let ghost mut n: nat = 0;
        proof {
            self.lemma_safe();
            self.lemma_grows_refl();
            lemma_forced_start(self.model());
            lemma_stems_start(self.model());
        }
        loop
            invariant_except_break
                old(self).wf(),
                self.wf(),
                old(self).grows_into(self),
                *self == *old(self) || self.settled() || !N::inert(),
                N::inert() && made_by_operator::<L, N>() ==> *self == *old(self) || all_caught_up(
                    self,
                    old(self).stale(),
                ),
                in_range(self.model().len(), old(self).stale()),
                passed(old(self), self, n),
                N::inert() ==> {
                    &&& self.model().len() == old(self).model().len()
                    &&& self.terms() == old(self).terms()
                    &&& forced(old(self).model(), self.model().roots)
                    &&& stems_from(old(self).model(), self.model())
                    &&& edges_by_congruence(old(self), self)
                },
                old(self).settled() ==> *self == *old(self),
            ensures
                self.wf(),
                self.settled(),
                tidy(self.model()),
                old(self).grows_into(self),
                N::inert() ==> {
                    &&& self.model().len() == old(self).model().len()
                    &&& self.terms() == old(self).terms()
                    &&& forced(old(self).model(), self.model().roots)
                    &&& stems_from(old(self).model(), self.model())
                    &&& edges_by_congruence(old(self), self)
                },
                N::inert() && made_by_operator::<L, N>() ==> all_caught_up(
                    self,
                    old(self).stale(),
                ),
                old(self).settled() && tidy(old(self).model()) ==> old(self).alike(self),
                passes_done(old(self), self),
            decreases
                    u32::MAX + 1 - self.model().len(),
                    classes_of(self.model().roots),
                    if self.settled() {
                        0int
                    } else {
                        1int
                    },
        {
            let ghost head = *self;
            self.restore_congruence();
            let ghost restored = *self;
            proof {
                restored.lemma_safe();
                lemma_grows_measure(&head, &restored);
            }
            // Congruence is now stable. Rebuild the hashcons table so that
            // stale keys are dropped and duplicate e-nodes collapse.
            self.collect_memo();
            let ghost tidied = *self;
            proof {
                restored.lemma_safe();
                lemma_collected(restored.model(), tidied.model());
                restored.lemma_quiet(&tidied);
                EGraph::lemma_grows_trans(&head, &restored, &tidied);
                EGraph::lemma_grows_trans(old(self), &head, &tidied);
                lemma_repaired(&head, &restored, &tidied);
                if N::inert() {
                    head.lemma_safe();
                    lemma_stems_step(
                        old(self).model(),
                        head.model(),
                        restored.model(),
                        tidied.model(),
                    );
                    EGraph::lemma_grows_trans(old(self), &head, &restored);
                    lemma_edges_trans(old(self), &head, &restored);
                    lemma_edges_kept(old(self), &restored, &tidied);
                }
                if old(self).settled() && tidy(old(self).model()) {
                    lemma_collected_same(old(self).model(), tidied.model());
                }
            }
            if self.analysis_pending.len() == 0 {
                proof {
                    if N::inert() && made_by_operator::<L, N>() {
                        if all_caught_up(&head, old(self).stale()) && head.settled() {
                            assert(restored == head);
                            lemma_still_caught_up(&head, self, old(self).stale());
                        } else {
                            assert(old(self).stale().len() == 0);
                        }
                    }
                    assert(passed(old(self), &head, n));
                    assert(passes_done(old(self), self));
                }
                break;
            }
            // Propagate data upward, then run `modify`. It can add nodes or
            // unions, which have to be repaired in turn.
            let changed = self.propagate_analysis();
            let ghost propagated = *self;
            proof {
                propagated.lemma_safe();
                tidied.lemma_safe();
                lemma_same_nodes_kept(tidied.model(), propagated.model());
                tidied.lemma_quiet(&propagated);
                EGraph::lemma_grows_trans(old(self), &tidied, &propagated);
                if N::inert() {
                    lemma_edges_kept(old(self), &tidied, &propagated);
                }
            }
            proof {
                if N::inert() && made_by_operator::<L, N>() {
                    assert(!head.settled());
                    assert forall|i: int|
                        #![trigger old(self).stale()[i]]
                        0 <= i < old(self).stale().len() implies caught_up(
                        &propagated,
                        propagated.model().root(old(self).stale()[i]),
                    ) by {
                        assert(tidied.stale()[i] == old(self).stale()[i]);
                        let root = tidied.model().root(tidied.stale()[i]);
                        assert(changed@.contains(root));
                        let x = choose|x: int| 0 <= x < changed@.len() && changed@[x] == root;
                        assert(caught_up(&propagated, changed@[x]));
                    }
                }
            }
            let ghost list = changed@;
            proof {
                assert(all_moved(&tidied, &propagated, list)) by {
                    assert forall|k: Id| #[trigger] list.contains(k) implies tidied.model().has(k)
                        && tidied.model().root(k) == k && moved(&tidied, &propagated, k) by {
                        let i = choose|i: int| 0 <= i < list.len() && list[i] == k;
                        assert(tidied.model().has(changed@[i]));
                    }
                    assert forall|k: Id|
                        tidied.model().has(k) && tidied.model().root(k) == k && moved(
                            &tidied,
                            &propagated,
                            k,
                        ) implies #[trigger] list.contains(k) by {
                        if propagated.class_data(k) == tidied.class_data(k) {
                            let i = choose|i: int|
                                0 <= i < tidied.stale().len() && tidied.model().roots[(
                                #[trigger] tidied.stale()[i]).at()] == k;
                            assert(list.contains(tidied.model().root(tidied.stale()[i])));
                        }
                    }
                }
                assert forall|k: Id| tidied.model().has(k) && moved(
                    &tidied,
                    &propagated,
                    k,
                ) implies list.contains(k) by {
                    if propagated.class_data(k) == tidied.class_data(k) {
                        let i = choose|i: int|
                            0 <= i < tidied.stale().len() && tidied.model().roots[(
                            #[trigger] tidied.stale()[i]).at()] == k;
                        assert(list.contains(tidied.model().root(tidied.stale()[i])));
                    }
                }
                assert(spreads(&tidied, &propagated)) by {
                    if made_by_operator::<L, N>() {
                        assert forall|k: Id|
                            #![trigger propagated.class_data(k)]
                            tidied.model().has(k) && moved(
                                &tidied,
                                &propagated,
                                k,
                            ) implies caught_up(&propagated, k) by {
                            let x = choose|x: int| 0 <= x < list.len() && list[x] == k;
                            assert(caught_up(&propagated, list[x]));
                        }
                    }
                }
            }
            self.run_modify(changed);
            proof {
                assert(pass(&head, self)) by {
                    assert forall|k: Id|
                        #![trigger propagated.class_data(k)]
                        tidied.model().has(k) && moved(&tidied, &propagated, k) implies modify_ran(
                        &propagated,
                        self,
                        k,
                    ) by {
                        let x = choose|x: int| 0 <= x < list.len() && list[x] == k;
                        assert(modify_ran(&propagated, self, list[x]));
                    }
                    assert(only_modified(&propagated, &*self, list));
                    assert(spreads(&tidied, &propagated));
                }
                assert(passed(old(self), self, n + 1)) by {
                    assert(pass(&head, self) && passed(old(self), &head, n));
                    assert((n + 1 - 1) as nat == n);
                }
                n = n + 1;
                if N::inert() && made_by_operator::<L, N>() {
                    lemma_still_caught_up(&propagated, self, old(self).stale());
                }
                self.lemma_safe();
                EGraph::lemma_grows_trans(old(self), &propagated, self);
                lemma_grows_measure(&propagated, self);
                if N::inert() {
                    lemma_edges_kept(old(self), &propagated, self);
                }
                assert(!head.settled());
            }
        }
    }
}

/// Restoring congruence and collecting is a repair.
proof fn lemma_repaired<L: Language, N: ClassData>(
    head: &EGraph<L, N>,
    restored: &EGraph<L, N>,
    tidied: &EGraph<L, N>,
)
    requires
        head.wf(),
        restored.wf(),
        tidied.wf(),
        mended(head, restored),
        restored.model().pending.len() == 0,
        collected(restored.model(), tidied.model()),
        restored.grows_into(tidied),
        tidied.edges() == restored.edges(),
        tidied.terms() == restored.terms(),
        tidied.watchers() == restored.watchers(),
        tidied.stale() == restored.stale(),
        tidied.reason() == restored.reason(),
        forall|k: Id|
            #![trigger tidied.class_data(k)]
            restored.model().has(k) ==> tidied.class_data(k) == restored.class_data(k),
    ensures
        repaired(head, tidied),
{
    head.lemma_safe();
    restored.lemma_safe();
    lemma_stems_start(head.model());
    lemma_stems_step(head.model(), head.model(), restored.model(), tidied.model());
    EGraph::lemma_grows_trans(head, restored, tidied);
    lemma_edges_kept(head, restored, tidied);
    assert(only_congruence(head, restored) && cleaned(restored, tidied));
}

/// The parents of all these classes are up to date.
pub open spec fn all_caught_up<L: Language, N: Analysis<L>>(
    egraph: &EGraph<L, N>,
    list: Seq<Id>,
) -> bool {
    forall|i: int|
        #![trigger list[i]]
        0 <= i < list.len() ==> caught_up(egraph, egraph.model().root(list[i]))
}

/// What leaves parents and data alone leaves them up to date.
proof fn lemma_still_caught_up<L: Language, N: Analysis<L>>(
    before: &EGraph<L, N>,
    after: &EGraph<L, N>,
    list: Seq<Id>,
)
    requires
        before.wf(),
        in_range(before.model().len(), list),
        after.model().roots == before.model().roots,
        after.model().parents == before.model().parents,
        forall|k: Id|
            #![trigger after.class_data(k)]
            before.model().has(k) ==> after.class_data(k) == before.class_data(k),
        all_caught_up(before, list),
    ensures
        all_caught_up(after, list),
{
    before.lemma_safe();
    let m = before.model();
    assert forall|i: int| #![trigger list[i]] 0 <= i < list.len() implies caught_up(
        after,
        after.model().root(list[i]),
    ) by {
        let k = m.root(list[i]);
        assert(m.has(k));
        assert(caught_up(before, k));
        assert forall|e: int|
            #![trigger after.model().parents[k.at()][e]]
            0 <= e < after.model().parents[k.at()].len() implies up_to_date(
            after,
            after.model().parents[k.at()][e].0,
            after.model().parents[k.at()][e].1,
        ) by {
            let entry = m.parents[k.at()][e];
            assert(m.entry_ok(m.parents[k.at()][e]));
            assert(up_to_date(before, m.parents[k.at()][e].0, m.parents[k.at()][e].1));
            lemma_same_up_to_date(before, after, entry);
        }
    }
}

/// A graph stems from itself.
proof fn lemma_stems_start<L: Language>(m: Model<L>)
    requires
        m.shape(),
    ensures
        stems_from(m, m),
{
    assert forall|k: int, b: int|
        #![trigger m.nodes[k][b]]
        0 <= k < m.len() && 0 <= b < m.nodes[k].len() implies stems_at(
        m,
        m.roots,
        m.nodes[k][b],
        Id(k as u32),
    ) by {
        assert(m.roots[k] == Id(k as u32));
    }
}

/// Restoring congruence and collecting bring in no e-node.
proof fn lemma_stems_step<L: Language>(
    start: Model<L>,
    head: Model<L>,
    restored: Model<L>,
    tidied: Model<L>,
)
    requires
        lawful::<L>(),
        start.shape(),
        head.shape(),
        restored.shape(),
        start.len() == head.len() == restored.len(),
        stems_from(start, head),
        coarsens(head.roots, restored.roots),
        drawn_from(head, restored),
        collected(restored, tidied),
    ensures
        stems_from(start, tidied),
{
    let roots = restored.roots;
    assert forall|k: int, b: int|
        #![trigger tidied.nodes[k][b]]
        0 <= k < tidied.len() && 0 <= b < tidied.nodes[k].len() implies stems_at(
        start,
        tidied.roots,
        tidied.nodes[k][b],
        Id(k as u32),
    ) by {
        let node = tidied.nodes[k][b];
        lemma_class_forms(restored, k);
        assert(forms(roots, restored.nodes[k])[b] == node);
        assert(holds_node(roots, restored.nodes[k], node));
        let a = choose|a: int|
            0 <= a < restored.nodes[k].len() && canon(roots, #[trigger] restored.nodes[k][a])
                == node;
        let mid = restored.nodes[k][a];
        assert(restored.knows(restored.nodes[k][a]));
        lemma_canon_twice(roots, mid);
        assert(canon(roots, node) == canon(roots, mid));
        assert(came_from(head, roots, mid, Id(k as u32)));
        let (k1, a1) = choose|k1: int, a1: int|
            0 <= k1 < head.len() && 0 <= a1 < head.nodes[k1].len()
                && #[trigger] head.nodes[k1][a1] == mid && roots[k1] == Id(k as u32);
        assert(head.knows(head.nodes[k1][a1]));
        assert(stems_at(start, head.roots, head.nodes[k1][a1], Id(k1 as u32)));
        let (k0, a0) = choose|k0: int, a0: int|
            0 <= k0 < start.len() && 0 <= a0 < start.nodes[k0].len() && canon(
                head.roots,
                #[trigger] start.nodes[k0][a0],
            ) == canon(head.roots, mid) && head.roots[k0] == Id(k1 as u32);
        let first = start.nodes[k0][a0];
        assert(start.knows(start.nodes[k0][a0]));
        lemma_canon_coarsens(head.roots, roots, first, mid);
        assert(head.nodes[k1].len() > 0);
        assert(head.roots[k1] == Id(k1 as u32));
        assert(head.roots[k0] == head.roots[k1]);
        assert(roots[k0] == roots[k1]);
        assert(canon(tidied.roots, start.nodes[k0][a0]) == canon(tidied.roots, node));
    }
}

proof fn lemma_same_trans<L: Language, N: ClassData>(
    a: &EGraph<L, N>,
    b: &EGraph<L, N>,
    c: &EGraph<L, N>,
)
    requires
        a.same(b),
        b.same(c),
    ensures
        a.same(c),
{
    assert forall|id: Id| #[trigger] c.class_data(id) == a.class_data(id) by {
        assert(b.class_data(id) == a.class_data(id));
    }
}

} // verus!
