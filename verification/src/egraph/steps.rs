//! The steps of an e-graph keep its invariant.

use super::lang::{lawful, lemma_with_kids, Id, Language};
use super::model::{
    canon, canon_ids, coarsens, has_older, holds_entry, holds_node, in_range, lemma_canon_coarsens,
    lemma_canon_same, lemma_joined_coarsens, mentions, older_kids, Model,
};
use vstd::prelude::*;

verus! {

/// Two different classes that can be merged.
pub open spec fn mergeable<L: Language>(m: Model<L>, a: Id, b: Id) -> bool {
    &&& m.has(a)
    &&& m.has(b)
    &&& m.root(a) == a
    &&& m.root(b) == b
    &&& a != b
}

pub proof fn lemma_merged_shape<L: Language>(m: Model<L>, a: Id, b: Id)
    requires
        m.shape(),
        mergeable(m, a, b),
    ensures
        m.merged(a, b).shape(),
        coarsens(m.roots, m.merged(a, b).roots),
{
    let n = m.merged(a, b);
    assert forall|i: int| #![trigger n.roots[i]] 0 <= i < n.len() implies n.roots[i].at() < n.len()
        && n.roots[n.roots[i].at()] == n.roots[i] by {
        assert(m.roots[m.roots[i].at()] == m.roots[i]);
    }
    assert forall|i: int, k: int|
        #![trigger n.nodes[i][k]]
        0 <= i < n.len() && 0 <= k < n.nodes[i].len() implies n.knows(n.nodes[i][k]) by {
        if i == a.at() {
            let la = m.nodes[a.at()].len();
            if k < la {
                assert(m.knows(m.nodes[a.at()][k]));
            } else {
                assert(m.knows(m.nodes[b.at()][k - la]));
            }
        } else if i != b.at() {
            assert(m.knows(m.nodes[i][k]));
        }
    }
    assert forall|i: int, e: int|
        #![trigger n.parents[i][e]]
        0 <= i < n.len() && 0 <= e < n.parents[i].len() implies n.entry_ok(n.parents[i][e]) by {
        if i == a.at() {
            let la = m.parents[a.at()].len();
            if e < la {
                assert(m.entry_ok(m.parents[a.at()][e]));
            } else {
                assert(m.entry_ok(m.parents[b.at()][e - la]));
            }
        } else if i != b.at() {
            assert(m.entry_ok(m.parents[i][e]));
        }
    }
    assert forall|i: int| #![trigger n.nodes[i]] 0 <= i < n.len() && n.roots[i] != Id(
        i as u32,
    ) implies n.nodes[i].len() == 0 by {
        if i != b.at() {
            assert(m.nodes[i].len() == 0);
        }
    }
    assert forall|i: int| #![trigger n.parents[i]] 0 <= i < n.len() && n.roots[i] != Id(
        i as u32,
    ) implies n.parents[i].len() == 0 by {
        if i != b.at() {
            assert(m.parents[i].len() == 0);
        }
    }
}

/// Where the class of an old root is after a merge.
pub open spec fn moved(k: Id, survivor: Id, absorbed: Id) -> Id {
    if k == absorbed {
        survivor
    } else {
        k
    }
}

/// A node of a class is still in it after a merge.
proof fn lemma_merged_node<L: Language>(m: Model<L>, a: Id, b: Id, k: Id, x: int) -> (y: int)
    requires
        m.shape(),
        mergeable(m, a, b),
        m.has(k),
        m.root(k) == k,
        0 <= x < m.nodes[k.at()].len(),
    ensures
        0 <= y < m.merged(a, b).nodes[moved(k, a, b).at()].len(),
        m.merged(a, b).nodes[moved(k, a, b).at()][y] == m.nodes[k.at()][x],
{
    if k == b {
        m.nodes[a.at()].len() + x
    } else {
        x
    }
}

/// Where a node of a class after a merge comes from.
proof fn lemma_merged_node_back<L: Language>(m: Model<L>, a: Id, b: Id, k: int, x: int) -> (o: (
    Id,
    int,
))
    requires
        m.shape(),
        mergeable(m, a, b),
        0 <= k < m.len(),
        0 <= x < m.merged(a, b).nodes[k].len(),
    ensures
        m.has(o.0),
        m.root(o.0) == o.0,
        moved(o.0, a, b) == Id(k as u32),
        0 <= o.1 < m.nodes[o.0.at()].len(),
        m.nodes[o.0.at()][o.1] == m.merged(a, b).nodes[k][x],
{
    let n = m.merged(a, b);
    if k == a.at() {
        let la = m.nodes[a.at()].len();
        if x < la {
            (a, x)
        } else {
            (b, x - la)
        }
    } else {
        assert(k != b.at());
        assert(n.nodes[k] == m.nodes[k]);
        assert(m.roots[k] == Id(k as u32));
        (Id(k as u32), x)
    }
}

proof fn lemma_merged_holds_node<L: Language>(m: Model<L>, a: Id, b: Id, x: Id, node: L)
    requires
        lawful::<L>(),
        m.shape(),
        mergeable(m, a, b),
        m.has(x),
        m.knows(node),
        holds_node(m.roots, m.class(x), canon(m.roots, node)),
    ensures
        holds_node(
            m.merged(a, b).roots,
            m.merged(a, b).class(x),
            canon(m.merged(a, b).roots, node),
        ),
{
    let n = m.merged(a, b);
    let r = m.root(x);
    assert(m.root(r) == r);
    let i = choose|i: int|
        0 <= i < m.class(x).len() && canon(m.roots, #[trigger] m.class(x)[i]) == canon(
            m.roots,
            node,
        );
    let y = lemma_merged_node(m, a, b, r, i);
    lemma_joined_coarsens(m.roots, a, b);
    assert(m.knows(m.nodes[r.at()][i]));
    lemma_canon_coarsens(m.roots, n.roots, m.nodes[r.at()][i], node);
    assert(n.class(x)[y] == m.nodes[r.at()][i]);
}

proof fn lemma_merged_holds_entry<L: Language>(
    m: Model<L>,
    a: Id,
    b: Id,
    entries: Seq<(L, Id)>,
    node: L,
    k: Id,
)
    requires
        lawful::<L>(),
        m.shape(),
        mergeable(m, a, b),
        m.knows(node),
        forall|e: int| #![trigger entries[e]] 0 <= e < entries.len() ==> m.entry_ok(entries[e]),
        holds_entry(m.roots, entries, canon(m.roots, node), k),
    ensures
        holds_entry(
            m.merged(a, b).roots,
            entries,
            canon(m.merged(a, b).roots, node),
            moved(k, a, b),
        ),
{
    let n = m.merged(a, b);
    let e = choose|e: int|
        0 <= e < entries.len() && canon(m.roots, (#[trigger] entries[e]).0) == canon(m.roots, node)
            && m.roots[entries[e].1.at()] == k;
    lemma_joined_coarsens(m.roots, a, b);
    assert(m.entry_ok(entries[e]));
    lemma_canon_coarsens(m.roots, n.roots, entries[e].0, node);
}

proof fn lemma_merged_table<L: Language>(m: Model<L>, a: Id, b: Id, c: Id, node: L, k: Id)
    requires
        lawful::<L>(),
        m.shape(),
        mergeable(m, a, b),
        m.has(c),
        m.root(c) == c,
        m.knows(node),
        holds_entry(m.roots, m.parents[c.at()], canon(m.roots, node), k),
    ensures
        holds_entry(
            m.merged(a, b).roots,
            m.merged(a, b).parents[moved(c, a, b).at()],
            canon(m.merged(a, b).roots, node),
            moved(k, a, b),
        ),
{
    let n = m.merged(a, b);
    let old_list = m.parents[c.at()];
    let new_list = n.parents[moved(c, a, b).at()];
    lemma_merged_holds_entry(m, a, b, old_list, node, k);
    let e = choose|e: int|
        0 <= e < old_list.len() && canon(n.roots, (#[trigger] old_list[e]).0) == canon(
            n.roots,
            node,
        ) && n.roots[old_list[e].1.at()] == moved(k, a, b);
    let f = if c == b {
        m.parents[a.at()].len() + e
    } else {
        e
    };
    assert(new_list[f] == old_list[e]);
}

proof fn lemma_merged_mentions<L: Language>(m: Model<L>, a: Id, b: Id, node: L, k: Id)
    requires
        m.shape(),
        mergeable(m, a, b),
        m.knows(node),
        mentions(m.roots, node, k),
    ensures
        mentions(m.merged(a, b).roots, node, moved(k, a, b)),
{
    let j = choose|j: int|
        0 <= j < node.kids().len() && m.roots[(#[trigger] node.kids()[j]).at()] == k;
    assert(m.merged(a, b).roots[node.kids()[j].at()] == moved(k, a, b));
}

proof fn lemma_merged_grounded<L: Language>(m: Model<L>, a: Id, b: Id)
    requires
        lawful::<L>(),
        m.shape(),
        mergeable(m, a, b),
        m.grounded(),
    ensures
        m.merged(a, b).grounded(),
{
    let n = m.merged(a, b);
    assert forall|i: int| 0 <= i < n.len() implies #[trigger] n.grounded_at(i) by {
        assert(m.grounded_at(i));
        let id = Id(i as u32);
        let x = choose|x: int|
            0 <= x < m.class(id).len() && older_kids(m.roots, #[trigger] m.class(id)[x], i);
        let r = m.root(id);
        assert(m.root(r) == r);
        let y = lemma_merged_node(m, a, b, r, x);
        let node = m.class(id)[x];
        assert(m.knows(m.nodes[r.at()][x]));
        assert(n.class(id)[y] == node);
        assert forall|j: int| 0 <= j < node.kids().len() implies has_older(
            n.roots,
            (#[trigger] node.kids()[j]),
            i,
        ) by {
            assert(has_older(m.roots, node.kids()[j], i));
            let d = choose|d: int|
                0 <= d < i && d < m.roots.len() && #[trigger] m.roots[d]
                    == m.roots[node.kids()[j].at()];
            assert(n.roots[d] == n.roots[node.kids()[j].at()]);
        }
        assert(older_kids(n.roots, n.class(id)[y], i));
    }
}

proof fn lemma_merged_registered<L: Language>(
    m: Model<L>,
    a: Id,
    b: Id,
    home: Id,
    extra: Seq<(L, Id)>,
)
    requires
        lawful::<L>(),
        m.shape(),
        mergeable(m, a, b),
        extra.len() > 0 ==> m.has(home),
        m.owned_extra(home, extra),
        m.registered(home, extra),
    ensures
        m.merged(a, b).registered(home, extra),
{
    let n = m.merged(a, b);
    assert forall|k: int, x: int, j: int|
        #![trigger n.nodes[k][x].kids()[j]]
        0 <= k < n.len() && 0 <= x < n.nodes[k].len() && 0 <= j
            < n.nodes[k][x].kids().len() implies n.listed(
        home,
        extra,
        n.nodes[k][x],
        Id(k as u32),
        n.nodes[k][x].kids()[j],
    ) by {
        let (k0, x0) = lemma_merged_node_back(m, a, b, k, x);
        let node = n.nodes[k][x];
        let child = node.kids()[j];
        assert(node == m.nodes[k0.at()][x0]);
        assert(m.knows(m.nodes[k0.at()][x0]));
        assert(m.nodes[k0.at()][x0].kids()[j] == child);
        assert(m.listed(home, extra, node, k0, child));
        let form = canon(m.roots, node);
        if holds_entry(m.roots, m.parents[m.root(child).at()], form, k0) {
            assert(m.root(m.root(child)) == m.root(child));
            lemma_merged_table(m, a, b, m.root(child), node, k0);
        } else {
            lemma_merged_holds_entry(m, a, b, extra, node, k0);
        }
    }
}

proof fn lemma_merged_real<L: Language>(m: Model<L>, a: Id, b: Id, c: Id, entry: (L, Id))
    requires
        lawful::<L>(),
        m.shape(),
        mergeable(m, a, b),
        m.entry_ok(entry),
        m.real_entry(c, entry),
    ensures
        m.merged(a, b).real_entry(moved(c, a, b), entry),
{
    lemma_merged_mentions(m, a, b, entry.0, c);
    lemma_merged_holds_node(m, a, b, entry.1, entry.0);
}

proof fn lemma_merged_owned<L: Language>(
    m: Model<L>,
    a: Id,
    b: Id,
    home: Id,
    extra: Seq<(L, Id)>,
)
    requires
        lawful::<L>(),
        m.shape(),
        mergeable(m, a, b),
        extra.len() > 0 ==> m.has(home),
        m.owned(),
        m.owned_extra(home, extra),
    ensures
        m.merged(a, b).owned(),
        m.merged(a, b).owned_extra(home, extra),
{
    let n = m.merged(a, b);
    assert forall|c: int, e: int|
        #![trigger n.parents[c][e]]
        0 <= c < n.len() && 0 <= e < n.parents[c].len() implies n.real_entry(
        Id(c as u32),
        n.parents[c][e],
    ) by {
        let la = m.parents[a.at()].len();
        if c == a.at() && e >= la {
            let entry = m.parents[b.at()][e - la];
            assert(m.real_entry(Id(b.at() as u32), entry));
            lemma_merged_real(m, a, b, b, entry);
        } else if c != b.at() {
            let entry = m.parents[c][e];
            assert(m.real_entry(Id(c as u32), entry));
            lemma_merged_real(m, a, b, Id(c as u32), entry);
        }
    }
    assert forall|e: int| #![trigger extra[e]] 0 <= e < extra.len() implies n.entry_ok(extra[e])
        && n.real_entry(n.root(home), extra[e]) by {
        lemma_merged_real(m, a, b, m.root(home), extra[e]);
    }
}

proof fn lemma_merged_sound<L: Language>(m: Model<L>, a: Id, b: Id)
    requires
        lawful::<L>(),
        m.shape(),
        mergeable(m, a, b),
        m.sound(),
    ensures
        m.merged(a, b).sound(),
{
    let n = m.merged(a, b);
    assert forall|key: L| #[trigger] n.memo.contains_key(key) implies holds_node(
        n.roots,
        n.class(n.memo[key]),
        canon(n.roots, key),
    ) by {
        assert(m.memo.contains_key(key));
        lemma_merged_holds_node(m, a, b, m.memo[key], key);
    }
}

/// A node without children in the absorbed class keeps its canonical form.
proof fn lemma_merged_canon<L: Language>(m: Model<L>, a: Id, b: Id, node: L)
    requires
        m.knows(node),
        !mentions(m.roots, node, b),
    ensures
        canon(m.merged(a, b).roots, node) == canon(m.roots, node),
{
    let n = m.merged(a, b);
    assert(canon_ids(n.roots, node.kids()) =~= canon_ids(m.roots, node.kids())) by {
        assert forall|j: int| 0 <= j < node.kids().len() implies n.roots[node.kids()[j].at()]
            == m.roots[node.kids()[j].at()] by {
            let kid = node.kids()[j];
            assert(m.roots[kid.at()] != b);
        }
    }
}

proof fn lemma_merged_covered<L: Language>(m: Model<L>, a: Id, b: Id, todo: Seq<(L, Id)>)
    requires
        lawful::<L>(),
        m.shape(),
        mergeable(m, a, b),
        forall|e: int| #![trigger todo[e]] 0 <= e < todo.len() ==> m.entry_ok(todo[e]),
        m.covered(todo),
    ensures
        m.merged(a, b).covered(todo),
{
    let n = m.merged(a, b);
    lemma_merged_shape(m, a, b);
    assert forall|k: int, x: int|
        #![trigger n.nodes[k][x]]
        0 <= k < n.len() && 0 <= x < n.nodes[k].len() implies n.covers(
        todo,
        n.nodes[k][x],
        Id(k as u32),
    ) by {
        let (k0, x0) = lemma_merged_node_back(m, a, b, k, x);
        let node = n.nodes[k][x];
        assert(m.nodes[k0.at()][x0] == node);
        assert(m.knows(m.nodes[k0.at()][x0]));
        assert(m.covers(todo, node, k0));
        if mentions(m.roots, node, b) {
            lemma_merged_mentions(m, a, b, node, b);
            let last = m.pending.len() as int;
            assert(n.pending[last] == a);
            assert(n.root(a) == a);
            assert(n.dirty(node));
        } else if m.interned(node, k0) {
            lemma_merged_canon(m, a, b, node);
        } else if m.dirty(node) {
            let p = choose|p: int|
                0 <= p < m.pending.len() && mentions(
                    m.roots,
                    node,
                    m.root(#[trigger] m.pending[p]),
                );
            lemma_merged_mentions(m, a, b, node, m.root(m.pending[p]));
            assert(n.pending[p] == m.pending[p]);
        } else {
            lemma_merged_holds_entry(m, a, b, todo, node, k0);
        }
    }
}

/// Merging two classes keeps the invariant.
pub proof fn lemma_merged<L: Language>(
    m: Model<L>,
    a: Id,
    b: Id,
    home: Id,
    extra: Seq<(L, Id)>,
    todo: Seq<(L, Id)>,
)
    requires
        lawful::<L>(),
        m.shape(),
        mergeable(m, a, b),
        extra.len() > 0 ==> m.has(home),
        forall|e: int| #![trigger todo[e]] 0 <= e < todo.len() ==> m.entry_ok(todo[e]),
        m.consistent_with(home, extra, todo),
    ensures
        m.merged(a, b).shape(),
        m.merged(a, b).consistent_with(home, extra, todo),
        coarsens(m.roots, m.merged(a, b).roots),
{
    reveal(Model::consistent_with);
    lemma_merged_shape(m, a, b);
    lemma_merged_grounded(m, a, b);
    lemma_merged_registered(m, a, b, home, extra);
    lemma_merged_owned(m, a, b, home, extra);
    lemma_merged_sound(m, a, b);
    lemma_merged_covered(m, a, b, todo);
    lemma_merged_placed(m, a, b, home, extra);
}

/// What is canonical after a merge was so before.
proof fn lemma_was_canonical<L: Language>(m: Model<L>, a: Id, b: Id, node: L)
    requires
        lawful::<L>(),
        m.shape(),
        mergeable(m, a, b),
        m.knows(node),
        canon(m.merged(a, b).roots, node) == node,
    ensures
        canon(m.roots, node) == node,
{
    let n = m.merged(a, b);
    lemma_with_kids(&node, canon_ids(n.roots, node.kids()));
    assert(canon_ids(n.roots, node.kids()) == node.kids());
    assert(canon_ids(m.roots, node.kids()) =~= node.kids()) by {
        assert forall|j: int| 0 <= j < node.kids().len() implies m.roots[node.kids()[j].at()]
            == node.kids()[j] by {
            let kid = node.kids()[j];
            assert(canon_ids(n.roots, node.kids())[j] == kid);
            assert(n.roots[kid.at()] == kid);
            if m.roots[kid.at()] == b {
                assert(kid == a);
                assert(m.roots[a.at()] == a);
            }
        }
    }
    lemma_canon_same(m.roots, node);
}

proof fn lemma_merged_placed<L: Language>(
    m: Model<L>,
    a: Id,
    b: Id,
    home: Id,
    extra: Seq<(L, Id)>,
)
    requires
        lawful::<L>(),
        m.shape(),
        mergeable(m, a, b),
        m.owned_extra(home, extra),
        m.placed(extra),
    ensures
        m.merged(a, b).placed(extra),
{
    let n = m.merged(a, b);
    assert forall|c: int, e: int|
        #![trigger n.parents[c][e]]
        0 <= c < n.len() && 0 <= e < n.parents[c].len() implies n.placed_entry(n.parents[c][e]) by {
        let la = m.parents[a.at()].len();
        let (o, i) = if c == a.at() && e >= la {
            (b.at(), e - la)
        } else {
            (c, e)
        };
        assert(n.parents[c][e] == m.parents[o][i]);
        assert(m.entry_ok(m.parents[o][i]) && m.placed_entry(m.parents[o][i]));
        lemma_placed_merged(m, a, b, m.parents[o][i]);
    }
    assert forall|e: int| #![trigger extra[e]] 0 <= e < extra.len() implies n.placed_entry(
        extra[e],
    ) by {
        assert(m.entry_ok(extra[e]));
        lemma_placed_merged(m, a, b, extra[e]);
    }
}

proof fn lemma_placed_merged<L: Language>(m: Model<L>, a: Id, b: Id, entry: (L, Id))
    requires
        lawful::<L>(),
        m.shape(),
        mergeable(m, a, b),
        m.entry_ok(entry),
        m.placed_entry(entry),
    ensures
        m.merged(a, b).placed_entry(entry),
{
    let n = m.merged(a, b);
    if canon(n.roots, entry.0) == entry.0 {
        lemma_was_canonical(m, a, b, entry.0);
        assert(m.memo.contains_key(entry.0));
        assert(m.roots[m.memo[entry.0].at()] == m.roots[entry.1.at()]);
        assert(n.roots[m.memo[entry.0].at()] == n.roots[entry.1.at()]);
    }
}

/// A canonical e-node that the hashcons table does not know yet.
pub open spec fn addable<L: Language>(m: Model<L>, node: L) -> bool {
    &&& m.knows(node)
    &&& canon_ids(m.roots, node.kids()) == node.kids()
    &&& !m.memo.contains_key(node)
    &&& m.len() <= u32::MAX
}

/// What a new e-node adds to the parent table: only entries for itself, behind
/// the ones that were there, and at least one for every child.
pub proof fn lemma_with_entries<L: Language>(
    parents: Seq<Seq<(L, Id)>>,
    node: L,
    owner: Id,
    upto: nat,
)
    requires
        in_range(parents.len(), node.kids()),
        upto <= node.kids().len(),
    ensures
        Model::with_entries(parents, node, owner, upto).len() == parents.len(),
        forall|c: int|
            #![trigger parents[c]]
            #![trigger Model::with_entries(parents, node, owner, upto)[c]]
            0 <= c < parents.len() ==> parents[c].len() <= Model::with_entries(
                parents,
                node,
                owner,
                upto,
            )[c].len(),
        forall|c: int, e: int|
            #![trigger Model::with_entries(parents, node, owner, upto)[c][e]]
            0 <= c < parents.len() && 0 <= e < parents[c].len() ==> Model::with_entries(
                parents,
                node,
                owner,
                upto,
            )[c][e] == parents[c][e],
        forall|c: int, e: int|
            #![trigger Model::with_entries(parents, node, owner, upto)[c][e]]
            0 <= c < parents.len() && parents[c].len() <= e < Model::with_entries(
                parents,
                node,
                owner,
                upto,
            )[c].len() ==> Model::with_entries(parents, node, owner, upto)[c][e] == (node, owner)
                && kid_at(node, upto, c),
        forall|j: int|
            #![trigger node.kids()[j]]
            0 <= j < upto ==> parents[node.kids()[j].at()].len() < Model::with_entries(
                parents,
                node,
                owner,
                upto,
            )[node.kids()[j].at()].len(),
    decreases upto,
{
    if upto > 0 {
        let less = (upto - 1) as nat;
        lemma_with_entries(parents, node, owner, less);
        let rest = Model::with_entries(parents, node, owner, less);
        let res = Model::with_entries(parents, node, owner, upto);
        let kid = node.kids()[upto - 1];
        assert(kid.at() < parents.len());
        assert(res == rest.update(kid.at(), rest[kid.at()].push((node, owner))));
        assert forall|c: int, e: int|
            #![trigger res[c][e]]
            0 <= c < parents.len() && parents[c].len() <= e < res[c].len() implies res[c][e] == (
            node,
            owner,
        ) && kid_at(node, upto, c) by {
            if c == kid.at() && e == rest[c].len() {
                assert(node.kids()[upto - 1].at() == c);
            } else {
                assert(e < rest[c].len());
                assert(res[c][e] == rest[c][e]);
                assert(rest[c][e] == (node, owner));
                assert(kid_at(node, less, c));
                let j = choose|j: int| 0 <= j < less && (#[trigger] node.kids()[j]).at() == c;
                assert(node.kids()[j].at() == c);
            }
        }
        assert forall|c: int, e: int|
            #![trigger res[c][e]]
            0 <= c < parents.len() && 0 <= e < parents[c].len() implies res[c][e]
            == parents[c][e] by {
            assert(rest[c][e] == parents[c][e]);
        }
    }
}

/// One of the first `upto` children of `node` is the id `c`.
pub open spec fn kid_at<L: Language>(node: L, upto: nat, c: int) -> bool {
    exists|j: int| 0 <= j < upto && (#[trigger] node.kids()[j]).at() == c
}

pub proof fn lemma_added_shape<L: Language>(m: Model<L>, node: L)
    requires
        m.shape(),
        addable(m, node),
    ensures
        m.added(node).shape(),
        coarsens(m.roots, m.added(node).roots),
{
    let n = m.added(node);
    let id = Id(m.len() as u32);
    let start = m.parents.push(Seq::empty());
    lemma_with_entries(start, node, id, node.kids().len());
    assert forall|i: int| #![trigger n.roots[i]] 0 <= i < n.len() implies n.roots[i].at() < n.len()
        && n.roots[n.roots[i].at()] == n.roots[i] by {
        if i < m.len() {
            assert(m.roots[m.roots[i].at()] == m.roots[i]);
        }
    }
    assert forall|i: int, k: int|
        #![trigger n.nodes[i][k]]
        0 <= i < n.len() && 0 <= k < n.nodes[i].len() implies n.knows(n.nodes[i][k]) by {
        if i < m.len() {
            assert(m.knows(m.nodes[i][k]));
        }
    }
    assert forall|i: int, e: int|
        #![trigger n.parents[i][e]]
        0 <= i < n.len() && 0 <= e < n.parents[i].len() implies n.entry_ok(n.parents[i][e]) by {
        if e < start[i].len() {
            assert(m.entry_ok(m.parents[i][e]));
        }
    }
    assert forall|i: int| #![trigger n.parents[i]] 0 <= i < n.len() && n.roots[i] != Id(
        i as u32,
    ) implies n.parents[i].len() == 0 by {
        assert(m.parents[i].len() == 0);
        assert(start[i] == m.parents[i]);
        if n.parents[i].len() > 0 {
            assert(n.parents[i][0] == (node, id));
            let j = choose|j: int|
                0 <= j < node.kids().len() && (#[trigger] node.kids()[j]).at() == i;
            assert(canon_ids(m.roots, node.kids())[j] == node.kids()[j]);
        }
    }
    assert forall|i: int| #![trigger n.nodes[i]] 0 <= i < n.len() && n.roots[i] != Id(
        i as u32,
    ) implies n.nodes[i].len() == 0 by {
        assert(m.nodes[i].len() == 0);
    }
    assert forall|key: L| #[trigger] n.memo.contains_key(key) implies n.knows(key) && n.has(
        n.memo[key],
    ) by {
        if key != node {
            assert(m.memo.contains_key(key));
        }
    }
}

/// A new id changes no canonical form of a known node.
pub proof fn lemma_added_canon<L: Language>(roots: Seq<Id>, id: Id, x: L)
    requires
        in_range(roots.len(), x.kids()),
    ensures
        canon(roots.push(id), x) == canon(roots, x),
{
    assert(canon_ids(roots.push(id), x.kids()) =~= canon_ids(roots, x.kids()));
}

proof fn lemma_added_holds_node<L: Language>(m: Model<L>, node: L, x: Id, what: L)
    requires
        m.shape(),
        addable(m, node),
        m.has(x),
        m.knows(what),
        holds_node(m.roots, m.class(x), canon(m.roots, what)),
    ensures
        holds_node(m.added(node).roots, m.added(node).class(x), canon(m.added(node).roots, what)),
{
    let n = m.added(node);
    let id = Id(m.len() as u32);
    let r = m.root(x);
    let i = choose|i: int|
        0 <= i < m.class(x).len() && canon(m.roots, #[trigger] m.class(x)[i]) == canon(
            m.roots,
            what,
        );
    assert(m.knows(m.nodes[r.at()][i]));
    lemma_added_canon(m.roots, id, m.class(x)[i]);
    lemma_added_canon(m.roots, id, what);
    assert(n.class(x)[i] == m.class(x)[i]);
}

proof fn lemma_added_holds_self<L: Language>(m: Model<L>, node: L)
    requires
        lawful::<L>(),
        m.shape(),
        addable(m, node),
    ensures
        canon(m.added(node).roots, node) == node,
        m.added(node).class(Id(m.len() as u32)) == seq![node],
        holds_node(m.added(node).roots, m.added(node).class(Id(m.len() as u32)), node),
{
    let n = m.added(node);
    let id = Id(m.len() as u32);
    lemma_added_canon(m.roots, id, node);
    lemma_canon_same(m.roots, node);
    assert(n.class(id)[0] == node);
}

proof fn lemma_added_grounded<L: Language>(m: Model<L>, node: L)
    requires
        lawful::<L>(),
        m.shape(),
        addable(m, node),
        m.grounded(),
    ensures
        m.added(node).grounded(),
{
    let n = m.added(node);
    assert forall|i: int| 0 <= i < n.len() implies #[trigger] n.grounded_at(i) by {
        let id = Id(i as u32);
        if i < m.len() {
            assert(m.grounded_at(i));
            let x = choose|x: int|
                0 <= x < m.class(id).len() && older_kids(m.roots, #[trigger] m.class(id)[x], i);
            let what = m.class(id)[x];
            assert(m.knows(m.nodes[m.root(id).at()][x]));
            assert(n.class(id)[x] == what);
            assert forall|j: int| 0 <= j < what.kids().len() implies has_older(
                n.roots,
                (#[trigger] what.kids()[j]),
                i,
            ) by {
                assert(has_older(m.roots, what.kids()[j], i));
                let d = choose|d: int|
                    0 <= d < i && d < m.roots.len() && #[trigger] m.roots[d]
                        == m.roots[what.kids()[j].at()];
                assert(n.roots[d] == n.roots[what.kids()[j].at()]);
            }
        } else {
            assert(n.class(id)[0] == node);
            assert forall|j: int| 0 <= j < node.kids().len() implies has_older(
                n.roots,
                (#[trigger] node.kids()[j]),
                i,
            ) by {
                let d = node.kids()[j].at();
                assert(n.roots[d] == n.roots[node.kids()[j].at()]);
            }
        }
    }
}

proof fn lemma_added_registered<L: Language>(m: Model<L>, node: L)
    requires
        lawful::<L>(),
        m.shape(),
        addable(m, node),
        m.registered(Id(0), Seq::empty()),
    ensures
        m.added(node).registered(Id(0), Seq::empty()),
{
    let n = m.added(node);
    let id = Id(m.len() as u32);
    let start = m.parents.push(Seq::empty());
    lemma_with_entries(start, node, id, node.kids().len());
    lemma_added_holds_self(m, node);
    assert forall|k: int, x: int, j: int|
        #![trigger n.nodes[k][x].kids()[j]]
        0 <= k < n.len() && 0 <= x < n.nodes[k].len() && 0 <= j
            < n.nodes[k][x].kids().len() implies n.listed(
        Id(0),
        Seq::empty(),
        n.nodes[k][x],
        Id(k as u32),
        n.nodes[k][x].kids()[j],
    ) by {
        let what = n.nodes[k][x];
        let child = what.kids()[j];
        if k < m.len() {
            assert(m.nodes[k][x].kids()[j] == child);
            assert(m.knows(m.nodes[k][x]));
            assert(m.listed(Id(0), Seq::empty(), what, Id(k as u32), child));
            let c = m.root(child).at();
            let e = choose|e: int|
                0 <= e < m.parents[c].len() && canon(m.roots, (#[trigger] m.parents[c][e]).0)
                    == canon(m.roots, what) && m.roots[m.parents[c][e].1.at()] == Id(k as u32);
            let entry = m.parents[c][e];
            assert(m.entry_ok(entry));
            assert(start[c] == m.parents[c]);
            assert(n.parents[c][e] == entry);
            lemma_added_canon(m.roots, id, what);
            lemma_added_canon(m.roots, id, entry.0);
        } else {
            let c = child.at();
            assert(canon_ids(m.roots, node.kids())[j] == node.kids()[j]);
            assert(n.root(child) == child);
            let e = n.parents[c].len() - 1;
            assert(n.parents[c][e] == (node, id));
            assert(canon(n.roots, n.parents[c][e].0) == canon(n.roots, what));
            assert(n.roots[n.parents[c][e].1.at()] == id);
        }
    }
}

proof fn lemma_added_owned<L: Language>(m: Model<L>, node: L)
    requires
        lawful::<L>(),
        m.shape(),
        addable(m, node),
        m.owned(),
    ensures
        m.added(node).owned(),
{
    let n = m.added(node);
    let id = Id(m.len() as u32);
    let start = m.parents.push(Seq::empty());
    lemma_with_entries(start, node, id, node.kids().len());
    lemma_added_holds_self(m, node);
    assert forall|c: int, e: int|
        #![trigger n.parents[c][e]]
        0 <= c < n.len() && 0 <= e < n.parents[c].len() implies n.real_entry(
        Id(c as u32),
        n.parents[c][e],
    ) by {
        if e < start[c].len() {
            let entry = m.parents[c][e];
            assert(m.entry_ok(entry));
            assert(m.real_entry(Id(c as u32), entry));
            let j = choose|j: int|
                0 <= j < entry.0.kids().len() && m.roots[(#[trigger] entry.0.kids()[j]).at()] == Id(
                    c as u32,
                );
            assert(n.roots[entry.0.kids()[j].at()] == Id(c as u32));
            lemma_added_holds_node(m, node, entry.1, entry.0);
        } else {
            assert(n.parents[c][e] == (node, id));
            let j = choose|j: int|
                0 <= j < node.kids().len() && (#[trigger] node.kids()[j]).at() == c;
            assert(canon_ids(m.roots, node.kids())[j] == node.kids()[j]);
            assert(n.roots[node.kids()[j].at()] == Id(c as u32));
        }
    }
}

proof fn lemma_added_memo<L: Language>(m: Model<L>, node: L)
    requires
        lawful::<L>(),
        m.shape(),
        addable(m, node),
        m.sound(),
        m.covered(Seq::empty()),
    ensures
        m.added(node).sound(),
        m.added(node).covered(Seq::empty()),
{
    let n = m.added(node);
    let id = Id(m.len() as u32);
    lemma_added_holds_self(m, node);
    assert forall|key: L| #[trigger] n.memo.contains_key(key) implies holds_node(
        n.roots,
        n.class(n.memo[key]),
        canon(n.roots, key),
    ) by {
        if key != node {
            assert(m.memo.contains_key(key));
            lemma_added_holds_node(m, node, m.memo[key], key);
        }
    }
    assert forall|k: int, x: int|
        #![trigger n.nodes[k][x]]
        0 <= k < n.len() && 0 <= x < n.nodes[k].len() implies n.covers(
        Seq::empty(),
        n.nodes[k][x],
        Id(k as u32),
    ) by {
        let what = n.nodes[k][x];
        if k < m.len() {
            assert(m.nodes[k][x] == what);
            assert(m.knows(m.nodes[k][x]));
            assert(m.covers(Seq::empty(), what, Id(k as u32)));
            lemma_added_canon(m.roots, id, what);
            if m.interned(what, Id(k as u32)) {
                assert(canon(m.roots, what) != node);
                assert(n.interned(what, Id(k as u32)));
            } else {
                let p = choose|p: int|
                    0 <= p < m.pending.len() && mentions(
                        m.roots,
                        what,
                        m.root(#[trigger] m.pending[p]),
                    );
                let j = choose|j: int|
                    0 <= j < what.kids().len() && m.roots[(#[trigger] what.kids()[j]).at()]
                        == m.root(m.pending[p]);
                assert(n.roots[what.kids()[j].at()] == n.root(n.pending[p]));
                assert(n.dirty(what));
            }
        } else {
            assert(n.interned(what, id));
        }
    }
}

/// Adding an e-node keeps the invariant.
pub proof fn lemma_added<L: Language>(m: Model<L>, node: L)
    requires
        lawful::<L>(),
        m.shape(),
        addable(m, node),
        m.consistent(),
    ensures
        m.added(node).shape(),
        m.added(node).consistent(),
        coarsens(m.roots, m.added(node).roots),
{
    reveal(Model::consistent_with);
    lemma_added_shape(m, node);
    lemma_added_grounded(m, node);
    lemma_added_registered(m, node);
    lemma_added_owned(m, node);
    lemma_added_memo(m, node);
    lemma_added_placed(m, node);
}

proof fn lemma_added_placed<L: Language>(m: Model<L>, node: L)
    requires
        lawful::<L>(),
        m.shape(),
        addable(m, node),
        m.placed(Seq::empty()),
    ensures
        m.added(node).placed(Seq::empty()),
{
    let n = m.added(node);
    let id = Id(m.len() as u32);
    let wide = m.parents.push(Seq::empty());
    lemma_with_entries(wide, node, id, node.kids().len());
    assert forall|c: int, e: int|
        #![trigger n.parents[c][e]]
        0 <= c < n.len() && 0 <= e < n.parents[c].len() implies n.placed_entry(n.parents[c][e]) by {
        let entry = n.parents[c][e];
        if e < wide[c].len() {
            assert(c < m.len());
            assert(wide[c][e] == m.parents[c][e]);
            assert(entry == m.parents[c][e]);
            assert(m.entry_ok(m.parents[c][e]) && m.placed_entry(m.parents[c][e]));
            lemma_added_canon(m.roots, id, entry.0);
            assert(canon(n.roots, entry.0) == canon(m.roots, entry.0));
        } else {
            assert(entry == (node, id));
        }
    }
}

/// A merge keeps every e-node in its class.
pub proof fn lemma_merged_keeps<L: Language>(m: Model<L>, a: Id, b: Id, k: int, x: int)
    requires
        lawful::<L>(),
        m.shape(),
        mergeable(m, a, b),
        0 <= k < m.len(),
        0 <= x < m.nodes[k].len(),
    ensures
        holds_node(
            m.merged(a, b).roots,
            m.merged(a, b).class(Id(k as u32)),
            canon(m.merged(a, b).roots, m.nodes[k][x]),
        ),
{
    let id = Id(k as u32);
    assert(m.roots[k] == id);
    assert(m.class(id)[x] == m.nodes[k][x]);
    assert(m.knows(m.nodes[k][x]));
    lemma_merged_holds_node(m, a, b, id, m.nodes[k][x]);
}

/// A new e-node leaves every e-node in its class.
pub proof fn lemma_added_keeps<L: Language>(m: Model<L>, node: L, k: int, x: int)
    requires
        lawful::<L>(),
        m.shape(),
        addable(m, node),
        0 <= k < m.len(),
        0 <= x < m.nodes[k].len(),
    ensures
        holds_node(
            m.added(node).roots,
            m.added(node).class(Id(k as u32)),
            canon(m.added(node).roots, m.nodes[k][x]),
        ),
{
    let id = Id(k as u32);
    assert(m.roots[k] == id);
    assert(m.class(id)[x] == m.nodes[k][x]);
    assert(m.knows(m.nodes[k][x]));
    lemma_added_holds_node(m, node, id, m.nodes[k][x]);
}

} // verus!
