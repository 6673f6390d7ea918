//! What holds across operations on an e-graph.

use super::closure::{congruent, forced, is_canonical, tidy};
use super::explain::Facts;
use super::forest::{
    backwards, explanation, lemma_backwards, lemma_explanation, start_at, with_edge, Chain, Edges,
    Reason,
};
use super::graph::{add_done, kid_terms, merge_done, survivor};
use super::hooks::{
    classes_of, count_added, count_merged, lemma_absorbed, lemma_events_progress, notified,
    HookEvent,
};
use super::invariants::{
    canonical_at, interned_at, law_tidy_is_valid, listed_at, nodes_apart, nodes_canonical,
    parents_complete, parents_real,
};
use super::lang::{lawful, Id, Language};
use super::model::{
    canon, canon_ids, coarsens, holds_node, lemma_canon_same, lemma_canon_twice, mentions, Model,
};
use super::passes::congruence_step;
use super::readers::node_count;
use super::rebuild::differing;
use super::{ClassData, EGraph};
use vstd::prelude::*;

verus! {

/// What is equal stays equal.
pub proof fn law_equal_stays_equal<L: Language, N: ClassData>(
    old: &EGraph<L, N>,
    new: &EGraph<L, N>,
    a: Id,
    b: Id,
)
    requires
        old.grows_into(new),
        old.model().has(a),
        old.model().has(b),
        old.model().root(a) == old.model().root(b),
    ensures
        new.model().root(a) == new.model().root(b),
{
    assert(coarsens(old.model().roots, new.model().roots));
    assert(old.model().roots[a.at()] == old.model().roots[b.at()]);
}

/// In a tidy class every e-node is its own canonical form.
proof fn lemma_form_is_stored<L: Language, N: ClassData>(
    egraph: &EGraph<L, N>,
    id: Id,
    form: L,
) -> (a: int)
    requires
        egraph.wf(),
        tidy(egraph.model()),
        egraph.model().has(id),
        holds_node(egraph.model().roots, egraph.model().class(id), form),
    ensures
        0 <= a < egraph.model().class(id).len(),
        egraph.model().class(id)[a] == form,
        egraph.model().has(egraph.model().root(id)),
{
    egraph.lemma_safe();
    let m = egraph.model();
    let nodes = m.class(id);
    let a = choose|a: int| 0 <= a < nodes.len() && canon(m.roots, #[trigger] nodes[a]) == form;
    assert(m.has(m.root(id)));
    assert(m.nodes[m.root(id).at()][a] == nodes[a]);
    assert(is_canonical(m.roots, m.nodes[m.root(id).at()][a]));
    super::model::lemma_canon_same(m.roots, nodes[a]);
    a
}

/// Rebuilding makes equal exactly what congruence forces: the outcome is a
/// congruence on the graph from before, and every other congruence makes equal
/// all that it does. This speaks of a rebuild that the analysis does not
/// interfere with.
pub proof fn law_rebuilt_is_least_congruence<L: Language, N: ClassData>(
    old: &EGraph<L, N>,
    new: &EGraph<L, N>,
    labels: Seq<Id>,
)
    requires
        old.wf(),
        new.wf(),
        old.grows_into(new),
        new.model().len() == old.model().len(),
        tidy(new.model()),
        forced(old.model(), new.model().roots),
    ensures
        congruent(old.model(), new.model().roots),
        congruent(old.model(), labels) ==> coarsens(new.model().roots, labels),
{
    old.lemma_safe();
    new.lemma_safe();
    law_tidy_is_valid(new);
    let (m, n) = (old.model(), new.model());
    assert(coarsens(m.roots, n.roots));
    assert forall|k: int, a: int, l: int, b: int|
        #![trigger m.nodes[k][a], m.nodes[l][b]]
        0 <= k < m.len() && 0 <= a < m.nodes[k].len() && 0 <= l < m.len() && 0 <= b
            < m.nodes[l].len() && canon(n.roots, m.nodes[k][a]) == canon(
            n.roots,
            m.nodes[l][b],
        ) implies n.roots[k] == n.roots[l] by {
        let form = canon(n.roots, m.nodes[k][a]);
        let (ik, il) = (Id(k as u32), Id(l as u32));
        assert(n.has(ik) && n.has(il));
        assert(holds_node(n.roots, n.class(ik), form));
        assert(holds_node(n.roots, n.class(il), canon(n.roots, m.nodes[l][b])));
        let x = lemma_form_is_stored(new, ik, form);
        let y = lemma_form_is_stored(new, il, form);
        assert(n.nodes[n.root(ik).at()][x] == n.nodes[n.root(il).at()][y]);
        assert(nodes_apart(n));
        assert(n.root(ik).at() == n.root(il).at());
    }
}

/// After a rebuild, looking up a node finds the class that holds it, whatever
/// ids of their classes its children are given by.
pub proof fn law_lookup_finds_all<L: Language, N: ClassData>(
    egraph: &EGraph<L, N>,
    id: Id,
    node: L,
)
    requires
        egraph.wf(),
        tidy(egraph.model()),
        egraph.model().has(id),
        holds_node(egraph.model().roots, egraph.model().class(id), canon(egraph.model().roots, node)),
    ensures
        egraph.model().looked_up(node) == Some(egraph.model().root(id)),
{
    law_tidy_is_valid(egraph);
    let m = egraph.model();
    let a = lemma_form_is_stored(egraph, id, canon(m.roots, node));
    let root = m.root(id);
    assert(m.nodes[root.at()][a] == canon(m.roots, node));
    assert(interned_at(m, root.at(), a));
    assert(Id(root.at() as u32) == root);
}

/// Adding a node that no class holds gives it a class of its own: the next id,
/// which holds the canonical form of the node and nothing else. All other ids
/// and classes stay as they are, there is one e-node more, and every hook is
/// told of this one event.
pub proof fn law_new_node_is_added<L: Language, N: ClassData>(
    old: &EGraph<L, N>,
    new: &EGraph<L, N>,
    node: L,
    other: Id,
)
    requires
        old.wf(),
        old.room(),
        old.model().knows(node),
        !old.model().has_node(node),
        add_done(old, new, canon(old.model().roots, node)),
    ensures
        ({
            let (m, n) = (old.model(), new.model());
            let id = Id(m.len() as u32);
            let form = canon(m.roots, node);
            &&& !m.has(id) && n.len() == m.len() + 1
            &&& n.root(id) == id && n.class(id) == seq![form]
            &&& n.looked_up(node) == Some(id)
            &&& m.has(other) ==> n.root(other) == m.root(other) && n.class(other) == m.class(other)
            &&& node_count(n, n.len()) == node_count(m, m.len()) + 1
            &&& notified(
                old.watchers(),
                new.watchers(),
                seq![HookEvent::Added { id, node: form }],
            )
        }),
{
    old.lemma_safe();
    let (m, n) = (old.model(), new.model());
    let id = Id(m.len() as u32);
    let form = canon(m.roots, node);
    assert(n.class(id) =~= seq![form]);
    if m.has(other) {
        assert(m.roots[other.at()].at() < m.len());
    }
    lemma_same_forms(m, id, node);
    assert(canon(n.roots, node) == form);
    lemma_count_added(m, form, m.len());
}

/// A new id is the child of no node that was there before.
proof fn lemma_same_forms<L: Language>(m: Model<L>, id: Id, node: L)
    requires
        lawful::<L>(),
        m.shape(),
        m.knows(node),
        id.at() == m.len(),
    ensures
        canon(m.roots.push(id), node) == canon(m.roots, node),
{
    let roots = m.roots.push(id);
    assert forall|j: int| #![trigger node.kids()[j]] 0 <= j < node.kids().len() implies roots[node.kids()[j].at()]
        == m.roots[node.kids()[j].at()] by {
        assert(node.kids()[j].at() < m.len());
    }
    assert(canon_ids(roots, node.kids()) =~= canon_ids(m.roots, node.kids()));
}

/// The other classes hold as many nodes as before.
proof fn lemma_count_added<L: Language>(m: Model<L>, form: L, n: nat)
    requires
        m.nodes.len() == m.len(),
        n <= m.len(),
    ensures
        node_count(m.added(form), n) == node_count(m, n),
    decreases n,
{
    if n > 0 {
        lemma_count_added(m, form, (n - 1) as nat);
    }
}

/// Hooks can keep count: the events of a change tell of exactly as many new
/// e-nodes as there are new ids and, beyond that, of exactly as many merges as
/// there are classes less. A class that was absorbed represented one before, if
/// it was there, represents none after, and is equal to the one that survived.
pub proof fn law_events_tell_all<L: Language, N: ClassData>(
    old: &EGraph<L, N>,
    new: &EGraph<L, N>,
    events: Seq<HookEvent<L>>,
    e: int,
)
    requires
        old.wf(),
        old.evolved(new, events),
    ensures
        events.len() == count_added(events) + count_merged(events),
        count_added(events) == new.model().len() - old.model().len(),
        count_merged(events) == classes_of(old.model().roots) + count_added(events) - classes_of(
            new.model().roots,
        ),
        0 <= e < events.len() ==> match events[e] {
            HookEvent::Merged { survivor, absorbed } => {
                &&& new.model().has(survivor) && new.model().has(absorbed)
                &&& old.model().has(absorbed) ==> old.model().root(absorbed) == absorbed
                &&& new.model().root(absorbed) != absorbed
                &&& new.model().root(absorbed) == new.model().root(survivor)
            },
            _ => true,
        },
{
    old.lemma_safe();
    let roots = old.model().roots;
    lemma_events_progress(roots, events);
    if 0 <= e < events.len() && events[e] is Merged {
        lemma_absorbed(roots, events, e);
    }
}

/// After a rebuild that the analysis does not interfere with, hooks have been
/// told of no new e-node, and of one merge for every class less.
pub proof fn law_rebuild_only_merges<L: Language, N: ClassData>(
    old: &EGraph<L, N>,
    new: &EGraph<L, N>,
    events: Seq<HookEvent<L>>,
    e: int,
)
    requires
        old.wf(),
        old.evolved(new, events),
        new.model().len() == old.model().len(),
    ensures
        events.len() == classes_of(old.model().roots) - classes_of(new.model().roots),
        0 <= e < events.len() ==> match events[e] {
            HookEvent::Merged { survivor, absorbed } => {
                &&& old.model().root(absorbed) == absorbed
                &&& new.model().root(absorbed) != absorbed
                &&& new.model().root(absorbed) == new.model().root(survivor)
            },
            HookEvent::Added { .. } => false,
        },
{
    law_events_tell_all(old, new, events, e);
    if 0 <= e < events.len() && events[e] is Added {
        lemma_counts_added(events, e);
    }
}

/// An event that adds is counted.
proof fn lemma_counts_added<L: Language>(events: Seq<HookEvent<L>>, e: int)
    requires
        0 <= e < events.len(),
        events[e] is Added,
    ensures
        count_added(events) > 0,
    decreases events.len(),
{
    if e < events.len() - 1 {
        assert(events.drop_last()[e] == events[e]);
        lemma_counts_added(events.drop_last(), e);
    }
}

/// Where two lists of ids differ, the pairs of `differing` say so.
proof fn lemma_differing(from: Seq<Id>, to: Seq<Id>, n: nat)
    requires
        n <= from.len(),
        from.len() <= to.len(),
    ensures
        forall|i: int|
            #![trigger differing(from.take(n as int), to)[i]]
            0 <= i < differing(from.take(n as int), to).len() ==> is_pair(
                from,
                to,
                differing(from.take(n as int), to)[i],
            ),
        forall|j: int|
            #![trigger from[j]]
            0 <= j < n && from[j] != to[j] ==> differing(from.take(n as int), to).contains(
                (from[j], to[j]),
            ),
    decreases n,
{
    if n > 0 {
        let less = (n - 1) as nat;
        lemma_differing(from, to, less);
        let (some, more) = (from.take(less as int), from.take(n as int));
        assert(more.drop_last() =~= some && more.last() == from[n - 1]);
        let (had, now) = (differing(some, to), differing(more, to));
        assert forall|i: int| #![trigger now[i]] 0 <= i < now.len() implies is_pair(
            from,
            to,
            now[i],
        ) by {
            if i < had.len() {
                assert(now[i] == had[i]);
            } else {
                assert(now[i] == (from[n - 1], to[n - 1]));
            }
        }
        assert forall|j: int| #![trigger from[j]] 0 <= j < n && from[j] != to[j] implies now.contains(
            (from[j], to[j]),
        ) by {
            if j < less {
                assert(had.contains((from[j], to[j])));
                let i = choose|i: int| 0 <= i < had.len() && had[i] == (from[j], to[j]);
                assert(now[i] == had[i]);
            } else {
                assert(now[now.len() - 1] == (from[j], to[j]));
            }
        }
    }
}

/// The two ids stand at the same place of `from` and `to`, and differ.
pub open spec fn is_pair(from: Seq<Id>, to: Seq<Id>, pair: (Id, Id)) -> bool {
    exists|j: int|
        #![trigger from[j]]
        0 <= j < from.len() && pair == (from[j], to[j]) && from[j] != to[j]
}

/// A merge by congruence has a cause: the edge that is recorded for it names at
/// least one pair of children, and exactly the children of the parent entry
/// that are not canonical, each with the canonical id that it is equal to.
pub proof fn law_congruence_names_children<L: Language, N: ClassData>(
    start: &EGraph<L, N>,
    old: &EGraph<L, N>,
    new: &EGraph<L, N>,
    a: Id,
    b: Id,
    node: L,
)
    requires
        congruence_step(start, old, new, a, b, node),
    ensures
        ({
            let roots = old.model().roots;
            let pairs = differing(node.kids(), canon(roots, node).kids());
            &&& new.edges() == with_edge(old.edges(), a, b, Reason::Congruence(pairs))
            &&& pairs.len() > 0
            &&& forall|i: int|
                #![trigger pairs[i]]
                0 <= i < pairs.len() ==> node.kids().contains(pairs[i].0) && pairs[i].1
                    == roots[pairs[i].0.at()] && pairs[i].0 != pairs[i].1
            &&& forall|j: int|
                #![trigger node.kids()[j]]
                0 <= j < node.kids().len() && roots[node.kids()[j].at()] != node.kids()[j]
                    ==> pairs.contains((node.kids()[j], roots[node.kids()[j].at()]))
        }),
{
    old.lemma_safe();
    let roots = old.model().roots;
    lemma_canon_twice(roots, node);
    let (from, to) = (node.kids(), canon(roots, node).kids());
    lemma_differing(from, to, from.len());
    assert(from.take(from.len() as int) =~= from);
    let pairs = differing(from, to);
    assert forall|i: int| #![trigger pairs[i]] 0 <= i < pairs.len() implies from.contains(
        pairs[i].0,
    ) && pairs[i].1 == roots[pairs[i].0.at()] && pairs[i].0 != pairs[i].1 by {
        assert(is_pair(from, to, pairs[i]));
        let j = choose|j: int|
            #![trigger from[j]]
            0 <= j < from.len() && pairs[i] == (from[j], to[j]) && from[j] != to[j];
        assert(to[j] == canon_ids(roots, from)[j]);
    }
    assert forall|j: int|
        #![trigger node.kids()[j]]
        0 <= j < node.kids().len() && roots[node.kids()[j].at()]
            != node.kids()[j] implies pairs.contains(
        (node.kids()[j], roots[node.kids()[j].at()]),
    ) by {
        assert(to[j] == canon_ids(roots, from)[j]);
    }
    if pairs.len() == 0 {
        assert(canon_ids(roots, from) =~= from) by {
            assert forall|j: int| 0 <= j < from.len() implies canon_ids(roots, from)[j]
                == from[j] by {
                assert(to[j] == canon_ids(roots, from)[j]);
                if roots[from[j].at()] != from[j] {
                    assert(pairs.contains((node.kids()[j], roots[node.kids()[j].at()])));
                }
            }
        }
        lemma_canon_same(roots, node);
    }
}

/// An explanation shows what a congruence step rests on: below its line stand a
/// line for every pair of children that the edge names and the explanation for
/// that pair, as long as it is indented by less than four blanks.
pub proof fn law_congruence_is_explained(
    facts: Facts,
    chain: Chain,
    depth: nat,
    i: int,
    pairs: Seq<(Id, Id)>,
    n: nat,
)
    requires
        0 < i < chain.len(),
        chain[i].1 == Reason::Congruence(pairs),
        depth < 4,
        0 < n <= pairs.len(),
    ensures
        facts.chain_story(chain, depth, (i + 1) as nat) == facts.chain_story(
            chain,
            depth,
            i as nat,
        ) + facts.step_line(depth, chain[i].0, "congruence"@) + facts.pairs_story(
            pairs,
            depth,
            pairs.len(),
        ),
        facts.pairs_story(pairs, depth, n) == facts.pairs_story(pairs, depth, (n - 1) as nat)
            + facts.where_line(depth, pairs[n - 1]) + facts.story(
            pairs[n - 1].0,
            pairs[n - 1].1,
            depth + 3,
        ),
{
    assert(((i + 1) as nat - 1) as nat == i as nat);
}

/// The explanation the other way round is the explanation read backwards.
pub proof fn law_explained_backwards<L: Language, N: ClassData>(
    egraph: &EGraph<L, N>,
    a: Id,
    b: Id,
)
    requires
        egraph.wf(),
    ensures
        egraph.why(b, a) == match egraph.why(a, b) {
            Some(chain) => Some(backwards(chain)),
            None => None,
        },
{
    egraph.lemma_safe();
    let (roots, edges) = (egraph.model().roots, egraph.edges());
    if a == b {
        assert(backwards(seq![start_at(a)]) =~= seq![start_at(a)]);
    } else if a.at() < roots.len() && b.at() < roots.len() && roots[a.at()] == roots[b.at()] {
        lemma_explanation(roots, edges, a, b);
        lemma_explanation(roots, edges, b, a);
        lemma_backwards(roots, edges, explanation(edges, a, b), a, b);
    }
}

/// Merging two classes makes one of them: all ids of both have the same
/// canonical id from then on, and all other ids keep theirs. The class that
/// stays is the one with more e-nodes and parents together, and that of `a`
/// where both have as many. It holds its own e-nodes and behind them those of
/// the other class; all other classes, their data and all frozen terms stay as
/// they are.
pub proof fn law_merge_joins_two_classes<L: Language, N: ClassData>(
    old: &EGraph<L, N>,
    new: &EGraph<L, N>,
    a: Id,
    b: Id,
    other: Id,
)
    requires
        old.wf(),
        old.model().has(a),
        old.model().has(b),
        old.model().has(other),
        old.model().root(a) != old.model().root(b),
        merge_done(old, new, a, b),
    ensures
        ({
            let (m, n) = (old.model(), new.model());
            let (x, y) = (m.root(a), m.root(b));
            let (more, fewer) = (
                m.nodes[y.at()].len() + m.parents[y.at()].len(),
                m.nodes[x.at()].len() + m.parents[x.at()].len(),
            );
            let (kept, gone) = if more > fewer {
                (y, x)
            } else {
                (x, y)
            };
            &&& survivor(m, x, y) == kept
            &&& n.len() == m.len()
            &&& n.root(other) == if m.root(other) == x || m.root(other) == y {
                kept
            } else {
                m.root(other)
            }
            &&& n.class(kept) == m.class(kept) + m.class(gone)
            &&& m.root(other) != x && m.root(other) != y ==> n.class(other) == m.class(other)
            &&& new.terms() == old.terms()
            &&& new.reason() == old.reason()
            &&& new.edges() == with_edge(old.edges(), a, b, old.reason())
            &&& m.root(other) != x && m.root(other) != y ==> new.class_data(m.root(other))
                == old.class_data(m.root(other))
            &&& notified(
                old.watchers(),
                new.watchers(),
                seq![HookEvent::Merged { survivor: kept, absorbed: gone }],
            )
        }),
{
    old.lemma_safe();
    let m = old.model();
    let (x, y) = (m.root(a), m.root(b));
    assert(m.roots[a.at()] == x && m.roots[b.at()] == y && m.roots[other.at()] == m.root(other));
    assert(m.root(x) == x && m.root(y) == y);
    assert(m.has(x) && m.has(y) && m.has(m.root(other)));
    assert(m.nodes[m.root(other).at()] == m.class(other));
}

/// Merging two classes merges the data of the one that goes into the data of the
/// one that stays, which is put down for the analysis exactly if its data
/// changed by that.
pub proof fn law_merge_joins_data<L: Language, N: ClassData>(
    old: &EGraph<L, N>,
    new: &EGraph<L, N>,
    a: Id,
    b: Id,
    kept: Id,
    gone: Id,
)
    requires
        old.wf(),
        old.model().has(a),
        old.model().has(b),
        old.model().root(a) != old.model().root(b),
        merge_done(old, new, a, b),
        new.model().root(a) == kept,
        kept == old.model().root(a) && gone == old.model().root(b) || kept == old.model().root(b)
            && gone == old.model().root(a),
    ensures
        exists|changed: bool|
            {
                &&& #[trigger] N::joined(
                    &old.class_data(kept),
                    &old.class_data(gone),
                    &new.class_data(kept),
                    changed,
                )
                &&& changed ==> new.stale() == old.stale().push(kept)
                &&& !changed ==> new.stale() == old.stale()
            },
{
    old.lemma_safe();
    let m = old.model();
    let (x, y) = (m.root(a), m.root(b));
    assert(m.roots[a.at()] == x && m.roots[b.at()] == y);
    assert(m.root(x) == x && m.root(y) == y);
    assert(kept == survivor(m, x, y));
}

/// The new edge is recorded at both ends, behind the edges that were there, and
/// nowhere else.
pub proof fn law_merge_records_one_edge(
    edges: Edges,
    a: Id,
    b: Id,
    reason: Reason,
    i: int,
)
    requires
        a.at() < edges.len(),
        b.at() < edges.len(),
        a != b,
        0 <= i < edges.len(),
    ensures
        with_edge(edges, a, b, reason).len() == edges.len(),
        with_edge(edges, a, b, reason)[i] == if i == a.at() {
            edges[i].push((b, reason))
        } else if i == b.at() {
            edges[i].push((a, reason))
        } else {
            edges[i]
        },
{
}

/// The term that is frozen for a new id is its node over the frozen terms of
/// the children; the terms of all other ids stay.
pub proof fn law_term_is_frozen<L: Language, N: ClassData>(
    old: &EGraph<L, N>,
    new: &EGraph<L, N>,
    form: L,
    i: int,
)
    requires
        old.wf(),
        add_done(old, new, form),
        0 <= i < old.model().len(),
    ensures
        new.terms().len() == old.terms().len() + 1,
        new.terms()[i] == old.terms()[i],
        new.terms()[old.model().len() as int] == form.rendered(
            form.kids().map_values(|id: Id| old.terms()[id.at()]),
        ),
{
    old.lemma_safe();
    assert(kid_terms(old.terms(), form) =~= form.kids().map_values(
        |id: Id| old.terms()[id.at()],
    ));
}

/// A graph passes the self-check only if all of this holds: every child of a
/// stored e-node is a canonical id, the hashcons table has for every stored
/// e-node the class that holds it, no e-node is in two classes, every e-node in
/// a parent list has a child in the class that has the list, and every e-node
/// is, up to canonical form, in the parent list of each of its child classes.
pub proof fn law_valid_means<L: Language, N: ClassData>(
    egraph: &EGraph<L, N>,
    k: int,
    a: int,
    l: int,
    b: int,
    j: int,
    e: int,
)
    requires
        egraph.valid(),
        0 <= k < egraph.model().len(),
        0 <= l < egraph.model().len(),
    ensures
        ({
            let m = egraph.model();
            &&& 0 <= a < m.nodes[k].len() ==> {
                &&& m.memo.contains_key(m.nodes[k][a])
                &&& m.roots[m.memo[m.nodes[k][a]].at()] == Id(k as u32)
                &&& 0 <= b < m.nodes[l].len() && m.nodes[k][a] == m.nodes[l][b] ==> k == l
                &&& 0 <= j < m.nodes[k][a].kids().len() ==> {
                    let child = m.nodes[k][a].kids()[j];
                    &&& m.roots[child.at()] == child
                    &&& exists|p: int|
                        #![trigger m.parents[child.at()][p]]
                        0 <= p < m.parents[child.at()].len() && canon(
                            m.roots,
                            m.parents[child.at()][p].0,
                        ) == canon(m.roots, m.nodes[k][a])
                            && m.roots[m.parents[child.at()][p].1.at()] == Id(k as u32)
                }
            }
            &&& 0 <= e < m.parents[k].len() ==> exists|i: int|
                #![trigger m.parents[k][e].0.kids()[i]]
                0 <= i < m.parents[k][e].0.kids().len()
                    && m.roots[m.parents[k][e].0.kids()[i].at()] == Id(k as u32)
        }),
{
    let m = egraph.model();
    if 0 <= a < m.nodes[k].len() {
        assert(interned_at(m, k, a));
        assert(nodes_canonical(m));
        assert(canonical_at(m, k, a));
        if 0 <= b < m.nodes[l].len() && m.nodes[k][a] == m.nodes[l][b] {
            assert(nodes_apart(m));
        }
        if 0 <= j < m.nodes[k][a].kids().len() {
            let child = m.nodes[k][a].kids()[j];
            assert(m.root(m.nodes[k][a].kids()[j]) == child);
            assert(parents_complete(m));
            assert(listed_at(m, k, a, j));
            let p = choose|p: int|
                0 <= p < m.parents[child.at()].len() && canon(
                    m.roots,
                    (#[trigger] m.parents[child.at()][p]).0,
                ) == canon(m.roots, m.nodes[k][a]) && m.roots[m.parents[child.at()][p].1.at()]
                    == Id(k as u32);
            assert(m.parents[child.at()][p].0 == m.parents[child.at()][p].0);
        }
    }
    if 0 <= e < m.parents[k].len() {
        assert(parents_real(m));
        let entry = m.parents[k][e];
        assert(mentions(m.roots, m.parents[k][e].0, Id(k as u32)));
        let i = choose|i: int|
            0 <= i < entry.0.kids().len() && m.roots[(#[trigger] entry.0.kids()[i]).at()] == Id(
                k as u32,
            );
        assert(m.parents[k][e].0.kids()[i] == entry.0.kids()[i]);
    }
}

/// Nothing is lost: whatever is done to a graph, ids stay ids, each e-node stays,
/// up to canonical form, in the class of the id that it was stored under, frozen
/// terms stay, and new edges come behind the old ones.
pub proof fn law_nothing_is_lost<L: Language, N: ClassData>(
    old: &EGraph<L, N>,
    new: &EGraph<L, N>,
    k: int,
    a: int,
    e: int,
)
    requires
        old.wf(),
        old.grows_into(new),
        0 <= k < old.model().len(),
    ensures
        old.model().len() <= new.model().len(),
        new.terms()[k] == old.terms()[k],
        0 <= e < old.edges()[k].len() ==> new.edges()[k][e] == old.edges()[k][e],
        0 <= a < old.model().nodes[k].len() ==> exists|b: int|
            #![trigger new.model().class(Id(k as u32))[b]]
            0 <= b < new.model().class(Id(k as u32)).len() && canon(
                new.model().roots,
                new.model().class(Id(k as u32))[b],
            ) == canon(new.model().roots, old.model().nodes[k][a]),
{
    old.lemma_safe();
    let events = choose|events: Seq<HookEvent<L>>| #[trigger] old.evolved(new, events);
    assert(old.terms()[k] == new.terms()[k]);
    assert(old.edges().len() == old.model().len());
    if 0 <= e < old.edges()[k].len() {
        let (was, now) = (old.edges()[k], new.edges()[k]);
        assert(now[e] == was[e]);
    }
    if 0 <= a < old.model().nodes[k].len() {
        assert(holds_node(
            new.model().roots,
            new.model().class(Id(k as u32)),
            canon(new.model().roots, old.model().nodes[k][a]),
        ));
        let nodes = new.model().class(Id(k as u32));
        let b = choose|b: int|
            0 <= b < nodes.len() && canon(new.model().roots, #[trigger] nodes[b]) == canon(
                new.model().roots,
                old.model().nodes[k][a],
            );
        assert(new.model().class(Id(k as u32))[b] == nodes[b]);
    }
}

} // verus!
