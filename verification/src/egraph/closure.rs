//! Congruence closure: what has to be equal, and the tidy state that
//! `rebuild` ends in.

use super::lang::{lawful, Id, Language};
use super::model::{
    canon, canon_ids, coarsens, has_older, holds_node, in_range, lemma_canon_coarsens,
    lemma_canon_eq, lemma_canon_same, lemma_canon_twice, older_kids, Model,
};
use super::steps::mergeable;
use super::unionfind::{canonical_map, joined};
use super::keeps_nodes;
use vstd::prelude::*;

verus! {

/// `labels` is a congruence on the graph: it keeps equal what is equal, and
/// gives the ids of two e-nodes of one operator the same label as soon as
/// their children have the same labels.
pub open spec fn congruent<L: Language>(m: Model<L>, labels: Seq<Id>) -> bool {
    &&& labels.len() == m.len()
    &&& coarsens(m.roots, labels)
    &&& forall|k: int, a: int, l: int, b: int|
        #![trigger m.nodes[k][a], m.nodes[l][b]]
        0 <= k < m.len() && 0 <= a < m.nodes[k].len() && 0 <= l < m.len() && 0 <= b
            < m.nodes[l].len() && canon(labels, m.nodes[k][a]) == canon(labels, m.nodes[l][b])
            ==> labels[k] == labels[l]
}

/// Whatever `roots` makes equal is equal under every congruence on the graph.
pub open spec fn forced<L: Language>(m: Model<L>, roots: Seq<Id>) -> bool {
    forall|labels: Seq<Id>| #[trigger] congruent(m, labels) ==> coarsens(roots, labels)
}

/// `node` was in a class of `start` that belongs to class `k` now.
pub open spec fn came_from<L: Language>(start: Model<L>, roots: Seq<Id>, node: L, k: Id) -> bool {
    exists|k0: int, a0: int|
        0 <= k0 < start.len() && 0 <= a0 < start.nodes[k0].len()
            && #[trigger] start.nodes[k0][a0] == node && roots[k0] == k
}

/// All nodes come from `start`.
pub open spec fn drawn_from<L: Language>(start: Model<L>, m: Model<L>) -> bool {
    forall|k: int, a: int|
        #![trigger m.nodes[k][a]]
        0 <= k < m.len() && 0 <= a < m.nodes[k].len() ==> came_from(
            start,
            m.roots,
            m.nodes[k][a],
            Id(k as u32),
        )
}

/// A graph comes from itself, and its own equalities are forced.
pub proof fn lemma_forced_start<L: Language>(m: Model<L>)
    requires
        m.shape(),
    ensures
        forced(m, m.roots),
        drawn_from(m, m),
{
    assert forall|k: int, a: int|
        #![trigger m.nodes[k][a]]
        0 <= k < m.len() && 0 <= a < m.nodes[k].len() implies came_from(
        m,
        m.roots,
        m.nodes[k][a],
        Id(k as u32),
    ) by {
        assert(m.roots[k] == Id(k as u32));
    }
}

/// Merging two classes that hold e-nodes of one canonical form is forced.
pub proof fn lemma_forced_merge<L: Language>(
    start: Model<L>,
    m: Model<L>,
    a: Id,
    b: Id,
    form: L,
)
    requires
        lawful::<L>(),
        start.shape(),
        m.shape(),
        m.len() == start.len(),
        coarsens(start.roots, m.roots),
        forced(start, m.roots),
        drawn_from(start, m),
        mergeable(m, a, b),
        holds_node(m.roots, m.nodes[a.at()], form),
        holds_node(m.roots, m.nodes[b.at()], form),
    ensures
        forced(start, m.merged(a, b).roots),
        forced(start, m.merged(b, a).roots),
        drawn_from(start, m.merged(a, b)),
        drawn_from(start, m.merged(b, a)),
{
    let x = choose|x: int|
        0 <= x < m.nodes[a.at()].len() && canon(m.roots, #[trigger] m.nodes[a.at()][x]) == form;
    let y = choose|y: int|
        0 <= y < m.nodes[b.at()].len() && canon(m.roots, #[trigger] m.nodes[b.at()][y]) == form;
    let (nx, ny) = (m.nodes[a.at()][x], m.nodes[b.at()][y]);
    assert(m.knows(nx) && m.knows(ny));
    assert(came_from(start, m.roots, nx, Id(a.at() as u32)));
    assert(came_from(start, m.roots, ny, Id(b.at() as u32)));
    let (kx, ax) = choose|k0: int, a0: int|
        0 <= k0 < start.len() && 0 <= a0 < start.nodes[k0].len()
            && #[trigger] start.nodes[k0][a0] == nx && m.roots[k0] == a;
    let (ky, ay) = choose|k0: int, a0: int|
        0 <= k0 < start.len() && 0 <= a0 < start.nodes[k0].len()
            && #[trigger] start.nodes[k0][a0] == ny && m.roots[k0] == b;
    assert forall|labels: Seq<Id>| #[trigger] congruent(start, labels) implies coarsens(
        joined(m.roots, a, b),
        labels,
    ) && coarsens(joined(m.roots, b, a), labels) by {
        assert(coarsens(m.roots, labels));
        lemma_canon_coarsens(m.roots, labels, nx, ny);
        assert(canon(labels, start.nodes[kx][ax]) == canon(labels, start.nodes[ky][ay]));
        assert(labels[kx] == labels[ky]);
        assert(m.roots[a.at()] == m.roots[kx]);
        assert(m.roots[b.at()] == m.roots[ky]);
        assert(labels[a.at()] == labels[b.at()]);
        let j1 = joined(m.roots, a, b);
        let j2 = joined(m.roots, b, a);
        assert forall|i: int, j: int|
            #![trigger j1[i], j1[j]]
            0 <= i < j1.len() && 0 <= j < j1.len() && j1[i] == j1[j] implies labels[i]
            == labels[j] by {
            lemma_label_of(m, labels, a, b, i);
            lemma_label_of(m, labels, a, b, j);
        }
        assert forall|i: int, j: int|
            #![trigger j2[i], j2[j]]
            0 <= i < j2.len() && 0 <= j < j2.len() && j2[i] == j2[j] implies labels[i]
            == labels[j] by {
            lemma_label_of(m, labels, b, a, i);
            lemma_label_of(m, labels, b, a, j);
        }
    }
    lemma_drawn_merge(start, m, a, b);
    lemma_drawn_merge(start, m, b, a);
}

/// The label of an id is that of the class it joined.
proof fn lemma_label_of<L: Language>(m: Model<L>, labels: Seq<Id>, a: Id, b: Id, i: int)
    requires
        m.shape(),
        mergeable(m, a, b),
        coarsens(m.roots, labels),
        labels[a.at()] == labels[b.at()],
        0 <= i < m.len(),
    ensures
        labels[i] == labels[joined(m.roots, a, b)[i].at()],
{
    let r = m.roots[i];
    assert(m.roots[r.at()] == r);
    assert(labels[i] == labels[r.at()]);
}

proof fn lemma_drawn_merge<L: Language>(start: Model<L>, m: Model<L>, a: Id, b: Id)
    requires
        start.shape(),
        m.shape(),
        m.len() == start.len(),
        drawn_from(start, m),
        mergeable(m, a, b),
    ensures
        drawn_from(start, m.merged(a, b)),
{
    let n = m.merged(a, b);
    assert forall|k: int, x: int|
        #![trigger n.nodes[k][x]]
        0 <= k < n.len() && 0 <= x < n.nodes[k].len() implies came_from(
        start,
        n.roots,
        n.nodes[k][x],
        Id(k as u32),
    ) by {
        let la = m.nodes[a.at()].len();
        let (k1, x1) = if k == a.at() && x >= la {
            (b.at(), x - la)
        } else {
            (k, x)
        };
        assert(m.nodes[k1][x1] == n.nodes[k][x]);
        assert(came_from(start, m.roots, m.nodes[k1][x1], Id(k1 as u32)));
        let (k0, a0) = choose|k0: int, a0: int|
            0 <= k0 < start.len() && 0 <= a0 < start.nodes[k0].len()
                && #[trigger] start.nodes[k0][a0] == m.nodes[k1][x1] && m.roots[k0] == Id(
                k1 as u32,
            );
        assert(n.roots[k0] == Id(k as u32));
    }
}

/// The children of `node` are canonical.
pub open spec fn is_canonical<L: Language>(roots: Seq<Id>, node: L) -> bool {
    canon_ids(roots, node.kids()) == node.kids()
}

/// The canonical forms of `nodes`, each at its first occurrence.
pub open spec fn forms<L: Language>(roots: Seq<Id>, nodes: Seq<L>) -> Seq<L>
    decreases nodes.len(),
{
    if nodes.len() == 0 {
        Seq::empty()
    } else {
        let rest = forms(roots, nodes.drop_last());
        let form = canon(roots, nodes.last());
        if rest.contains(form) {
            rest
        } else {
            rest.push(form)
        }
    }
}

/// All nodes of a graph, in the classes that hold them, are canonical, none
/// occurs twice in a class, and the hashcons table maps exactly these nodes to
/// their classes.
pub open spec fn tidy<L: Language>(m: Model<L>) -> bool {
    &&& m.pending.len() == 0
    &&& forall|k: int, a: int|
        #![trigger m.nodes[k][a]]
        0 <= k < m.len() && 0 <= a < m.nodes[k].len() ==> is_canonical(m.roots, m.nodes[k][a])
            && m.memo.contains_key(m.nodes[k][a]) && m.memo[m.nodes[k][a]] == Id(k as u32)
    &&& forall|k: int| #![trigger m.nodes[k]] 0 <= k < m.len() ==> m.nodes[k].no_duplicates()
    &&& forall|key: L| #[trigger]
        m.memo.contains_key(key) ==> m.has(m.memo[key]) && m.nodes[m.memo[key].at()].contains(key)
}

/// What `forms` lists.
pub proof fn lemma_forms<L: Language>(roots: Seq<Id>, nodes: Seq<L>)
    requires
        lawful::<L>(),
        canonical_map(roots),
        forall|a: int|
            #![trigger nodes[a]]
            0 <= a < nodes.len() ==> in_range(roots.len(), nodes[a].kids()),
    ensures
        forms(roots, nodes).no_duplicates(),
        forms(roots, nodes).len() <= nodes.len(),
        forall|a: int|
            #![trigger nodes[a]]
            0 <= a < nodes.len() ==> forms(roots, nodes).contains(canon(roots, nodes[a])),
        forall|b: int|
            #![trigger forms(roots, nodes)[b]]
            0 <= b < forms(roots, nodes).len() ==> {
                &&& holds_node(roots, nodes, forms(roots, nodes)[b])
                &&& is_canonical(roots, forms(roots, nodes)[b])
                &&& canon(roots, forms(roots, nodes)[b]) == forms(roots, nodes)[b]
                &&& in_range(roots.len(), forms(roots, nodes)[b].kids())
            },
    decreases nodes.len(),
{
    if nodes.len() > 0 {
        let less = nodes.drop_last();
        let form = canon(roots, nodes.last());
        lemma_forms(roots, less);
        lemma_canon_twice(roots, nodes.last());
        assert(in_range(roots.len(), nodes[nodes.len() - 1].kids()));
        let rest = forms(roots, less);
        let all = forms(roots, nodes);
        assert(canon_ids(roots, form.kids()) =~= form.kids());
        assert forall|a: int| #![trigger nodes[a]] 0 <= a < nodes.len() implies all.contains(
            canon(roots, nodes[a]),
        ) by {
            if a < less.len() {
                assert(less[a] == nodes[a]);
                assert(rest.contains(canon(roots, less[a])));
                let i = choose|i: int| 0 <= i < rest.len() && rest[i] == canon(roots, less[a]);
                assert(all[i] == rest[i]);
            } else if !rest.contains(form) {
                assert(all[rest.len() as int] == form);
            }
        }
        assert forall|b: int| #![trigger all[b]] 0 <= b < all.len() implies holds_node(
            roots,
            nodes,
            all[b],
        ) && is_canonical(roots, all[b]) && canon(roots, all[b]) == all[b] && in_range(
            roots.len(),
            all[b].kids(),
        ) by {
            if b < rest.len() {
                assert(all[b] == rest[b]);
                let a = choose|a: int|
                    0 <= a < less.len() && canon(roots, #[trigger] less[a]) == rest[b];
                assert(nodes[a] == less[a]);
            } else {
                assert(nodes[nodes.len() - 1] == nodes.last());
            }
        }
    }
}

/// Canonical nodes without repetition are their own forms.
pub proof fn lemma_forms_same<L: Language>(roots: Seq<Id>, nodes: Seq<L>)
    requires
        lawful::<L>(),
        nodes.no_duplicates(),
        forall|a: int|
            #![trigger nodes[a]]
            0 <= a < nodes.len() ==> is_canonical(roots, nodes[a]),
    ensures
        forms(roots, nodes) == nodes,
    decreases nodes.len(),
{
    if nodes.len() > 0 {
        let less = nodes.drop_last();
        assert forall|a: int| #![trigger less[a]] 0 <= a < less.len() implies is_canonical(
            roots,
            less[a],
        ) by {
            assert(nodes[a] == less[a]);
        }
        lemma_forms_same(roots, less);
        assert(is_canonical(roots, nodes[nodes.len() - 1]));
        lemma_canon_same(roots, nodes.last());
        if less.contains(nodes.last()) {
            let i = choose|i: int| 0 <= i < less.len() && less[i] == nodes.last();
            assert(nodes[i] == nodes[nodes.len() - 1]);
        }
        assert(less.push(nodes.last()) =~= nodes);
    } else {
        assert(nodes =~= Seq::empty());
    }
}

/// Once nothing waits for repair, equal canonical forms are in one class.
pub proof fn lemma_closed<L: Language>(m: Model<L>, k: int, a: int, l: int, b: int)
    requires
        m.shape(),
        m.consistent(),
        m.pending.len() == 0,
        0 <= k < m.len(),
        0 <= a < m.nodes[k].len(),
        0 <= l < m.len(),
        0 <= b < m.nodes[l].len(),
        canon(m.roots, m.nodes[k][a]) == canon(m.roots, m.nodes[l][b]),
    ensures
        k == l,
{
    reveal(Model::consistent_with);
    assert(m.covers(Seq::empty(), m.nodes[k][a], Id(k as u32)));
    assert(m.covers(Seq::empty(), m.nodes[l][b], Id(l as u32)));
}

/// The tables after every node was replaced by its canonical form, without
/// repetition, and the hashcons table was filled anew.
pub open spec fn collected<L: Language>(m: Model<L>, n: Model<L>) -> bool {
    &&& n.roots == m.roots
    &&& n.parents == m.parents
    &&& n.pending == m.pending
    &&& n.nodes.len() == m.nodes.len()
    &&& forall|k: int|
        #![trigger n.nodes[k]]
        0 <= k < m.nodes.len() ==> n.nodes[k] == forms(m.roots, m.nodes[k])
    &&& tidy(n)
}

/// No form belongs to two classes.
pub proof fn lemma_forms_apart<L: Language>(m: Model<L>, k: int, l: int, form: L)
    requires
        lawful::<L>(),
        m.shape(),
        m.consistent(),
        m.pending.len() == 0,
        0 <= k < m.len(),
        0 <= l < m.len(),
        forms(m.roots, m.nodes[k]).contains(form),
        forms(m.roots, m.nodes[l]).contains(form),
    ensures
        k == l,
{
    lemma_class_forms(m, k);
    lemma_class_forms(m, l);
    let (fk, fl) = (forms(m.roots, m.nodes[k]), forms(m.roots, m.nodes[l]));
    let b = choose|b: int| 0 <= b < fk.len() && fk[b] == form;
    let c = choose|c: int| 0 <= c < fl.len() && fl[c] == form;
    assert(holds_node(m.roots, m.nodes[k], fk[b]));
    assert(holds_node(m.roots, m.nodes[l], fl[c]));
    let x = choose|x: int|
        0 <= x < m.nodes[k].len() && canon(m.roots, #[trigger] m.nodes[k][x]) == form;
    let y = choose|y: int|
        0 <= y < m.nodes[l].len() && canon(m.roots, #[trigger] m.nodes[l][y]) == form;
    lemma_closed(m, k, x, l, y);
}

/// What `forms` lists for a class.
pub proof fn lemma_class_forms<L: Language>(m: Model<L>, k: int)
    requires
        lawful::<L>(),
        m.shape(),
        0 <= k < m.len(),
    ensures
        forms(m.roots, m.nodes[k]).no_duplicates(),
        forall|b: int|
            #![trigger forms(m.roots, m.nodes[k])[b]]
            0 <= b < forms(m.roots, m.nodes[k]).len() ==> {
                &&& holds_node(m.roots, m.nodes[k], forms(m.roots, m.nodes[k])[b])
                &&& is_canonical(m.roots, forms(m.roots, m.nodes[k])[b])
                &&& in_range(m.len(), forms(m.roots, m.nodes[k])[b].kids())
            },
{
    let nodes = m.nodes[k];
    assert forall|a: int| #![trigger nodes[a]] 0 <= a < nodes.len() implies in_range(
        m.roots.len(),
        nodes[a].kids(),
    ) by {
        assert(m.knows(m.nodes[k][a]));
    }
    lemma_forms(m.roots, nodes);
}

/// Forms are held where the nodes were.
proof fn lemma_forms_hold<L: Language>(m: Model<L>, n: Model<L>, k: int, form: L)
    requires
        lawful::<L>(),
        m.shape(),
        collected(m, n),
        0 <= k < m.len(),
    ensures
        holds_node(m.roots, m.nodes[k], form) <==> holds_node(n.roots, n.nodes[k], form),
        holds_node(m.roots, m.nodes[k], form) ==> n.nodes[k].contains(form),
{
    let (old, new) = (m.nodes[k], n.nodes[k]);
    assert forall|a: int| #![trigger old[a]] 0 <= a < old.len() implies in_range(
        m.roots.len(),
        old[a].kids(),
    ) by {
        assert(m.knows(m.nodes[k][a]));
    }
    lemma_forms(m.roots, old);
    if holds_node(m.roots, old, form) {
        let a = choose|a: int| 0 <= a < old.len() && canon(m.roots, #[trigger] old[a]) == form;
        assert(new.contains(form));
        let b = choose|b: int| 0 <= b < new.len() && new[b] == form;
        assert(canon(n.roots, new[b]) == form);
    }
    if holds_node(n.roots, new, form) {
        let b = choose|b: int| 0 <= b < new.len() && canon(n.roots, #[trigger] new[b]) == form;
        assert(forms(m.roots, old)[b] == form);
    }
}

/// Collecting keeps the invariant and all nodes.
pub proof fn lemma_collected<L: Language>(m: Model<L>, n: Model<L>)
    requires
        lawful::<L>(),
        m.shape(),
        m.consistent(),
        m.pending.len() == 0,
        collected(m, n),
    ensures
        n.shape(),
        n.consistent(),
        keeps_nodes(m, n),
{
    reveal(Model::consistent_with);
    assert forall|k: int, b: int|
        #![trigger n.nodes[k][b]]
        0 <= k < n.len() && 0 <= b < n.nodes[k].len() implies n.knows(n.nodes[k][b])
        && exists|a: int|
        0 <= a < m.nodes[k].len() && canon(m.roots, #[trigger] m.nodes[k][a]) == n.nodes[k][b]
        && canon(n.roots, n.nodes[k][b]) == n.nodes[k][b] by {
        let old = m.nodes[k];
        assert forall|a: int| #![trigger old[a]] 0 <= a < old.len() implies in_range(
            m.roots.len(),
            old[a].kids(),
        ) by {
            assert(m.knows(m.nodes[k][a]));
        }
        lemma_forms(m.roots, old);
        assert(holds_node(m.roots, old, forms(m.roots, old)[b]));
    }
    assert(n.shape()) by {
        assert forall|i: int| #![trigger n.nodes[i]] 0 <= i < n.len() && n.roots[i] != Id(
            i as u32,
        ) implies n.nodes[i].len() == 0 by {
            assert(m.nodes[i].len() == 0);
        }
        assert forall|i: int, e: int|
            #![trigger n.parents[i][e]]
            0 <= i < n.len() && 0 <= e < n.parents[i].len() implies n.entry_ok(n.parents[i][e]) by {
            assert(m.entry_ok(m.parents[i][e]));
        }
        assert forall|key: L| #[trigger] n.memo.contains_key(key) implies n.knows(key) && n.has(
            n.memo[key],
        ) by {
            let k = n.memo[key].at();
            let b = choose|b: int| 0 <= b < n.nodes[k].len() && n.nodes[k][b] == key;
            assert(n.knows(n.nodes[k][b]));
        }
    }
    assert(n.grounded()) by {
        assert forall|i: int| 0 <= i < n.len() implies #[trigger] n.grounded_at(i) by {
            lemma_collected_grounded(m, n, i);
        }
    }
    assert forall|k: int, b: int, j: int|
        #![trigger n.nodes[k][b].kids()[j]]
        0 <= k < n.len() && 0 <= b < n.nodes[k].len() && 0 <= j
            < n.nodes[k][b].kids().len() implies n.listed(
        Id(0),
        Seq::empty(),
        n.nodes[k][b],
        Id(k as u32),
        n.nodes[k][b].kids()[j],
    ) by {
        let node = n.nodes[k][b];
        let a = choose|a: int|
            0 <= a < m.nodes[k].len() && canon(m.roots, #[trigger] m.nodes[k][a]) == node;
        let orig = m.nodes[k][a];
        lemma_canon_eq(m.roots, orig, node);
        assert(canon_ids(m.roots, orig.kids()).len() == canon_ids(m.roots, node.kids()).len());
        assert(canon_ids(m.roots, orig.kids())[j] == canon_ids(m.roots, node.kids())[j]);
        assert(m.root(orig.kids()[j]) == m.root(node.kids()[j]));
        let child = m.nodes[k][a].kids()[j];
        assert(m.listed(Id(0), Seq::empty(), orig, Id(k as u32), child));
    }
    assert(n.owned()) by {
        assert forall|c: int, e: int|
            #![trigger n.parents[c][e]]
            0 <= c < n.len() && 0 <= e < n.parents[c].len() implies n.real_entry(
            Id(c as u32),
            n.parents[c][e],
        ) by {
            let entry = m.parents[c][e];
            assert(m.real_entry(Id(c as u32), m.parents[c][e]));
            assert(m.entry_ok(entry));
            let k = m.root(entry.1).at();
            lemma_forms_hold(m, n, k, canon(m.roots, entry.0));
        }
    }
    assert(n.sound()) by {
        assert forall|key: L| #[trigger] n.memo.contains_key(key) implies holds_node(
            n.roots,
            n.class(n.memo[key]),
            canon(n.roots, key),
        ) by {
            let k = n.memo[key].at();
            let b = choose|b: int| 0 <= b < n.nodes[k].len() && n.nodes[k][b] == key;
            assert(n.knows(n.nodes[k][b]));
            assert(n.roots[k] == Id(k as u32)) by {
                assert(n.nodes[k].len() > 0);
            }
            assert(n.class(n.memo[key])[b] == key);
        }
    }
    assert forall|k: int, b: int|
        #![trigger n.nodes[k][b]]
        0 <= k < n.len() && 0 <= b < n.nodes[k].len() implies n.covers(
        Seq::empty(),
        n.nodes[k][b],
        Id(k as u32),
    ) by {
        assert(n.nodes[k].len() > 0);
        assert(n.roots[k] == Id(k as u32));
        assert(canon(n.roots, n.nodes[k][b]) == n.nodes[k][b]);
        assert(n.interned(n.nodes[k][b], Id(k as u32)));
    }
    assert(n.placed(Seq::empty())) by {
        assert forall|c: int, e: int|
            #![trigger n.parents[c][e]]
            0 <= c < n.len() && 0 <= e < n.parents[c].len() implies n.placed_entry(
            n.parents[c][e],
        ) by {
            let entry = n.parents[c][e];
            assert(n.entry_ok(n.parents[c][e]));
            assert(n.real_entry(Id(c as u32), n.parents[c][e]));
            if canon(n.roots, entry.0) == entry.0 {
                let k = n.root(entry.1).at();
                let b = choose|b: int|
                    0 <= b < n.class(entry.1).len() && canon(
                        n.roots,
                        #[trigger] n.class(entry.1)[b],
                    ) == entry.0;
                assert(n.nodes[k][b] == n.class(entry.1)[b]);
                assert(canon(n.roots, n.nodes[k][b]) == n.nodes[k][b]);
                assert(n.covers(Seq::empty(), n.nodes[k][b], Id(k as u32)));
                assert(n.interned(n.nodes[k][b], Id(k as u32)));
            }
        }
    }
    assert forall|k: int, x: int|
        #![trigger m.nodes[k][x]]
        0 <= k < m.len() && 0 <= x < m.nodes[k].len() implies holds_node(
        n.roots,
        n.class(Id(k as u32)),
        canon(n.roots, m.nodes[k][x]),
    ) by {
        assert(m.roots[k] == Id(k as u32));
        lemma_forms_hold(m, n, k, canon(m.roots, m.nodes[k][x]));
    }
}

proof fn lemma_collected_grounded<L: Language>(m: Model<L>, n: Model<L>, i: int)
    requires
        lawful::<L>(),
        m.shape(),
        collected(m, n),
        m.grounded_at(i),
        0 <= i < m.len(),
    ensures
        n.grounded_at(i),
{
    let id = Id(i as u32);
    let a = choose|a: int|
        0 <= a < m.class(id).len() && older_kids(m.roots, #[trigger] m.class(id)[a], i);
    let r = m.root(id).at();
    let orig = m.class(id)[a];
    assert(m.knows(m.nodes[r][a]));
    let form = canon(m.roots, orig);
    lemma_forms_hold(m, n, r, form);
    assert(holds_node(m.roots, m.nodes[r], form));
    let b = choose|b: int| 0 <= b < n.nodes[r].len() && n.nodes[r][b] == form;
    lemma_canon_twice(m.roots, orig);
    assert(n.class(id)[b] == form);
    assert forall|j: int| 0 <= j < form.kids().len() implies has_older(
        n.roots,
        (#[trigger] form.kids()[j]),
        i,
    ) by {
        assert(form.kids()[j] == m.roots[orig.kids()[j].at()]);
        assert(has_older(m.roots, orig.kids()[j], i));
        let kid = orig.kids()[j];
        assert(m.roots[m.roots[kid.at()].at()] == m.roots[kid.at()]);
        let d = choose|d: int|
            0 <= d < i && d < m.roots.len() && #[trigger] m.roots[d] == m.roots[kid.at()];
        assert(n.roots[d] == n.roots[form.kids()[j].at()]);
    }
    assert(older_kids(n.roots, n.class(id)[b], i));
}

/// Collecting a tidy graph changes nothing.
pub proof fn lemma_collected_same<L: Language>(m: Model<L>, n: Model<L>)
    requires
        lawful::<L>(),
        m.nodes.len() == m.len(),
        tidy(m),
        collected(m, n),
    ensures
        n == m,
{
    assert forall|k: int| #![trigger n.nodes[k]] 0 <= k < m.len() implies n.nodes[k]
        == m.nodes[k] by {
        let nodes = m.nodes[k];
        assert forall|a: int| #![trigger nodes[a]] 0 <= a < nodes.len() implies is_canonical(
            m.roots,
            nodes[a],
        ) by {
            assert(is_canonical(m.roots, m.nodes[k][a]));
        }
        lemma_forms_same(m.roots, nodes);
    }
    assert(n.nodes =~= m.nodes);
    assert forall|key: L| n.memo.contains_key(key) == m.memo.contains_key(key) by {
        if n.memo.contains_key(key) {
            let k = n.memo[key].at();
            let b = choose|b: int| 0 <= b < n.nodes[k].len() && n.nodes[k][b] == key;
            assert(m.memo.contains_key(m.nodes[k][b]));
        }
        if m.memo.contains_key(key) {
            let k = m.memo[key].at();
            let b = choose|b: int| 0 <= b < m.nodes[k].len() && m.nodes[k][b] == key;
            assert(n.memo.contains_key(n.nodes[k][b]));
        }
    }
    assert forall|key: L| m.memo.contains_key(key) implies n.memo[key] == m.memo[key] by {
        let k = m.memo[key].at();
        let b = choose|b: int| 0 <= b < m.nodes[k].len() && m.nodes[k][b] == key;
        assert(n.memo[n.nodes[k][b]] == Id(k as u32));
    }
    assert(n.memo =~= m.memo);
}

} // verus!
