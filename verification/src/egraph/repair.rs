//! The steps of congruence repair keep the invariant of an e-graph, merge only
//! what has to be equal, and end in a congruence-closed state.

use super::lang::{lawful, Id, Language};
use super::model::{
    canon, canon_ids, holds_entry, holds_node, lemma_canon_eq, mentions, older_kids, Model,
};
use super::keeps_nodes;
use vstd::prelude::*;

verus! {

/// The model with the parent entries of class `c` taken out and the last
/// waiting class off the list.
pub open spec fn taken_out<L: Language>(m: Model<L>, c: Id) -> Model<L> {
    Model {
        parents: m.parents.update(c.at(), Seq::empty()),
        pending: m.pending.drop_last(),
        ..m
    }
}

/// The model with `key` interned as part of class `k`.
pub open spec fn reinterned<L: Language>(m: Model<L>, key: L, k: Id) -> Model<L> {
    Model { memo: m.memo.insert(key, k), ..m }
}

/// The model with `entries` put behind the parent entries of class `c`.
pub open spec fn put_back<L: Language>(m: Model<L>, c: Id, entries: Seq<(L, Id)>) -> Model<L> {
    Model { parents: m.parents.update(c.at(), m.parents[c.at()] + entries), ..m }
}

/// Nodes of one canonical form refer to the same classes.
proof fn lemma_mentions_form<L: Language>(roots: Seq<Id>, x: L, y: L, k: Id)
    requires
        lawful::<L>(),
        canon(roots, x) == canon(roots, y),
        mentions(roots, x, k),
    ensures
        mentions(roots, y, k),
{
    lemma_canon_eq(roots, x, y);
    let j = choose|j: int| 0 <= j < x.kids().len() && roots[(#[trigger] x.kids()[j]).at()] == k;
    assert(canon_ids(roots, x.kids())[j] == canon_ids(roots, y.kids())[j]);
    assert(canon_ids(roots, x.kids()).len() == canon_ids(roots, y.kids()).len());
    assert(roots[y.kids()[j].at()] == k);
}

/// Taking out the parent entries of a class that waits for repair: they are
/// what is still to be re-interned.
pub proof fn lemma_taken_out<L: Language>(m: Model<L>, c: Id)
    requires
        lawful::<L>(),
        m.shape(),
        m.consistent(),
        m.pending.len() > 0,
        c == m.root(m.pending.last()),
    ensures
        taken_out(m, c).shape(),
        taken_out(m, c).consistent_with(c, m.parents[c.at()], m.parents[c.at()]),
        forall|e: int|
            #![trigger m.parents[c.at()][e]]
            0 <= e < m.parents[c.at()].len() ==> m.entry_ok(m.parents[c.at()][e]),
        keeps_nodes(m, taken_out(m, c)),
{
    reveal(Model::consistent_with);
    let n = taken_out(m, c);
    let entries = m.parents[c.at()];
    let last = m.pending.len() - 1;
    assert(m.has(m.pending[last]));
    assert(m.root(c) == c);
    assert forall|i: int, e: int|
        #![trigger n.parents[i][e]]
        0 <= i < n.len() && 0 <= e < n.parents[i].len() implies n.entry_ok(n.parents[i][e])
        && n.real_entry(Id(i as u32), n.parents[i][e]) by {
        assert(i != c.at());
        assert(n.parents[i][e] == m.parents[i][e]);
        assert(m.entry_ok(m.parents[i][e]));
        assert(m.real_entry(Id(i as u32), m.parents[i][e]));
    }
    assert forall|k: int, a: int| #![trigger n.nodes[k][a]] 0 <= k < n.len() && 0 <= a
        < n.nodes[k].len() implies n.knows(n.nodes[k][a]) by {
        assert(m.knows(m.nodes[k][a]));
    }
    assert forall|i: int| #![trigger n.nodes[i]] 0 <= i < n.len() && n.roots[i] != Id(
        i as u32,
    ) implies n.nodes[i].len() == 0 by {
        assert(m.nodes[i].len() == 0);
    }
    assert forall|i: int| #![trigger n.parents[i]] 0 <= i < n.len() && n.roots[i] != Id(
        i as u32,
    ) implies n.parents[i].len() == 0 by {
        assert(m.parents[i].len() == 0);
    }
    assert(n.shape());
    assert forall|i: int| 0 <= i < n.len() implies #[trigger] n.grounded_at(i) by {
        assert(m.grounded_at(i));
        let id = Id(i as u32);
        let a = choose|a: int|
            0 <= a < m.class(id).len() && older_kids(m.roots, #[trigger] m.class(id)[a], i);
        assert(older_kids(n.roots, n.class(id)[a], i));
    }
    assert forall|k: int, a: int, j: int|
        #![trigger n.nodes[k][a].kids()[j]]
        0 <= k < n.len() && 0 <= a < n.nodes[k].len() && 0 <= j
            < n.nodes[k][a].kids().len() implies n.listed(
        c,
        entries,
        n.nodes[k][a],
        Id(k as u32),
        n.nodes[k][a].kids()[j],
    ) by {
        let child = m.nodes[k][a].kids()[j];
        assert(m.knows(m.nodes[k][a]));
        assert(m.listed(Id(0), Seq::empty(), m.nodes[k][a], Id(k as u32), child));
        assert(m.root(m.root(child)) == m.root(child));
    }
    assert(n.owned_extra(c, entries)) by {
        assert forall|e: int|
            #![trigger entries[e]]
            0 <= e < entries.len() implies n.entry_ok(entries[e]) && n.real_entry(
            n.root(c),
            entries[e],
        ) by {
            assert(m.entry_ok(m.parents[c.at()][e]));
            assert(m.real_entry(Id(c.at() as u32), m.parents[c.at()][e]));
        }
    }
    assert forall|k: int, a: int|
        #![trigger n.nodes[k][a]]
        0 <= k < n.len() && 0 <= a < n.nodes[k].len() implies n.covers(
        entries,
        n.nodes[k][a],
        Id(k as u32),
    ) by {
        let node = m.nodes[k][a];
        assert(m.covers(Seq::empty(), m.nodes[k][a], Id(k as u32)));
        assert(m.knows(m.nodes[k][a]));
        if m.interned(node, Id(k as u32)) {
            assert(n.interned(node, Id(k as u32)));
        } else {
            let p = choose|p: int|
                0 <= p < m.pending.len() && mentions(
                    m.roots,
                    node,
                    m.root(#[trigger] m.pending[p]),
                );
            if p < last {
                assert(n.pending[p] == m.pending[p]);
                assert(n.dirty(node));
            } else {
                let j = choose|j: int|
                    0 <= j < node.kids().len() && m.roots[(#[trigger] node.kids()[j]).at()] == c;
                let child = m.nodes[k][a].kids()[j];
                assert(m.listed(Id(0), Seq::empty(), m.nodes[k][a], Id(k as u32), child));
            }
        }
    }
    assert(n.sound()) by {
        assert forall|key: L| #[trigger] n.memo.contains_key(key) implies holds_node(
            n.roots,
            n.class(n.memo[key]),
            canon(n.roots, key),
        ) by {
            assert(m.memo.contains_key(key));
        }
    }
    assert(n.placed(entries)) by {
        assert forall|i: int, e: int|
            #![trigger n.parents[i][e]]
            0 <= i < n.len() && 0 <= e < n.parents[i].len() implies n.placed_entry(
            n.parents[i][e],
        ) by {
            assert(n.parents[i][e] == m.parents[i][e]);
            assert(m.placed_entry(m.parents[i][e]));
        }
        assert forall|e: int|
            #![trigger entries[e]]
            0 <= e < entries.len() implies n.placed_entry(entries[e]) by {
            assert(m.placed_entry(m.parents[c.at()][e]));
        }
    }
    lemma_same_nodes_kept(m, n);
}

/// A model with the same nodes and roots keeps all nodes.
pub proof fn lemma_same_nodes_kept<L: Language>(m: Model<L>, n: Model<L>)
    requires
        m.shape(),
        n.roots == m.roots,
        n.nodes == m.nodes,
    ensures
        keeps_nodes(m, n),
{
    assert forall|k: int, x: int|
        #![trigger m.nodes[k][x]]
        0 <= k < m.len() && 0 <= x < m.nodes[k].len() implies holds_node(
        n.roots,
        n.class(Id(k as u32)),
        canon(n.roots, m.nodes[k][x]),
    ) by {
        assert(m.roots[k] == Id(k as u32));
        assert(n.class(Id(k as u32))[x] == m.nodes[k][x]);
    }
}

/// Re-interning the first entry of `todo` under `key`.
pub proof fn lemma_reinterned<L: Language>(
    m: Model<L>,
    home: Id,
    done: Seq<(L, Id)>,
    todo: Seq<(L, Id)>,
    key: L,
    k: Id,
)
    requires
        lawful::<L>(),
        m.shape(),
        m.has(home),
        todo.len() > 0,
        m.consistent_with(home, done + todo, todo),
        m.knows(key),
        canon(m.roots, key) == canon(m.roots, todo[0].0),
        k == m.root(todo[0].1),
        m.memo.contains_key(key) ==> m.root(m.memo[key]) == k,
        canon(m.roots, key) == key || m.dirty(todo[0].0),
    ensures
        reinterned(m, key, k).shape(),
        reinterned(m, key, k).consistent_with(
            home,
            done.push((key, k)) + todo.drop_first(),
            todo.drop_first(),
        ),
        keeps_nodes(m, reinterned(m, key, k)),
{
    reveal(Model::consistent_with);
    let n = reinterned(m, key, k);
    let (extra, more) = (done + todo, done.push((key, k)) + todo.drop_first());
    let rest = todo.drop_first();
    let entry = todo[0];
    let at = done.len() as int;
    assert(extra[at] == entry);
    assert(m.entry_ok(extra[at]) && m.real_entry(m.root(home), extra[at]));
    assert(m.root(k) == k);
    assert forall|e: int| 0 <= e < extra.len() implies canon(m.roots, (#[trigger] more[e]).0)
        == canon(m.roots, extra[e].0) && m.root(more[e].1) == m.root(extra[e].1) by {
        if e != at {
            assert(more[e] == extra[e]);
        }
    }
    lemma_shape_with_memo(m, key, k);
    assert(n.grounded()) by {
        assert forall|i: int| 0 <= i < n.len() implies #[trigger] n.grounded_at(i) by {
            assert(m.grounded_at(i));
            let id = Id(i as u32);
            let a = choose|a: int|
                0 <= a < m.class(id).len() && older_kids(m.roots, #[trigger] m.class(id)[a], i);
            assert(older_kids(n.roots, n.class(id)[a], i));
        }
    }
    assert forall|x: int, a: int, j: int|
        #![trigger n.nodes[x][a].kids()[j]]
        0 <= x < n.len() && 0 <= a < n.nodes[x].len() && 0 <= j
            < n.nodes[x][a].kids().len() implies n.listed(
        home,
        more,
        n.nodes[x][a],
        Id(x as u32),
        n.nodes[x][a].kids()[j],
    ) by {
        let child = m.nodes[x][a].kids()[j];
        assert(m.listed(home, extra, m.nodes[x][a], Id(x as u32), child));
        let form = canon(m.roots, m.nodes[x][a]);
        if !holds_entry(m.roots, m.parents[m.root(child).at()], form, Id(x as u32)) {
            let e = choose|e: int|
                0 <= e < extra.len() && canon(m.roots, (#[trigger] extra[e]).0) == form
                    && m.roots[extra[e].1.at()] == Id(x as u32);
            assert(canon(n.roots, more[e].0) == form);
        }
    }
    assert(n.owned()) by {
        assert forall|c: int, e: int|
            #![trigger n.parents[c][e]]
            0 <= c < n.len() && 0 <= e < n.parents[c].len() implies n.real_entry(
            Id(c as u32),
            n.parents[c][e],
        ) by {
            assert(m.real_entry(Id(c as u32), m.parents[c][e]));
        }
    }
    assert(n.owned_extra(home, more)) by {
        assert forall|e: int|
            #![trigger more[e]]
            0 <= e < more.len() implies n.entry_ok(more[e]) && n.real_entry(
            n.root(home),
            more[e],
        ) by {
            assert(m.entry_ok(extra[e]) && m.real_entry(m.root(home), extra[e]));
            if e == at {
                lemma_mentions_form(m.roots, entry.0, key, m.root(home));
                assert(n.class(k) == m.class(entry.1));
            } else {
                assert(more[e] == extra[e]);
            }
        }
    }
    assert(n.sound()) by {
        assert forall|q: L| #[trigger] n.memo.contains_key(q) implies holds_node(
            n.roots,
            n.class(n.memo[q]),
            canon(n.roots, q),
        ) by {
            if q == key {
                assert(n.class(k) == m.class(entry.1));
            } else {
                assert(m.memo.contains_key(q));
            }
        }
    }
    assert forall|x: int, a: int|
        #![trigger n.nodes[x][a]]
        0 <= x < n.len() && 0 <= a < n.nodes[x].len() implies n.covers(
        rest,
        n.nodes[x][a],
        Id(x as u32),
    ) by {
        let node = m.nodes[x][a];
        let id = Id(x as u32);
        assert(m.covers(todo, m.nodes[x][a], id));
        if m.interned(node, id) {
            assert(n.interned(node, id));
        } else if m.dirty(node) {
            let p = choose|p: int|
                0 <= p < m.pending.len() && mentions(
                    m.roots,
                    node,
                    m.root(#[trigger] m.pending[p]),
                );
            assert(mentions(n.roots, node, n.root(n.pending[p])));
        } else {
            let form = canon(m.roots, node);
            let e = choose|e: int|
                0 <= e < todo.len() && canon(m.roots, (#[trigger] todo[e]).0) == form
                    && m.roots[todo[e].1.at()] == id;
            if e > 0 {
                assert(rest[e - 1] == todo[e]);
            } else if canon(m.roots, key) == key {
                assert(n.interned(node, id));
            } else {
                let p = choose|p: int|
                    0 <= p < m.pending.len() && mentions(
                        m.roots,
                        entry.0,
                        m.root(#[trigger] m.pending[p]),
                    );
                lemma_mentions_form(m.roots, entry.0, node, m.root(m.pending[p]));
                assert(mentions(n.roots, node, n.root(n.pending[p])));
            }
        }
    }
    assert(n.placed(more)) by {
        assert forall|c: int, e: int|
            #![trigger n.parents[c][e]]
            0 <= c < n.len() && 0 <= e < n.parents[c].len() implies n.placed_entry(
            n.parents[c][e],
        ) by {
            assert(m.placed_entry(m.parents[c][e]));
        }
        assert forall|e: int| #![trigger more[e]] 0 <= e < more.len() implies n.placed_entry(
            more[e],
        ) by {
            if e != at {
                assert(more[e] == extra[e]);
                assert(m.placed_entry(extra[e]));
            }
        }
    }
    lemma_same_nodes_kept(m, n);
}

proof fn lemma_shape_with_memo<L: Language>(m: Model<L>, key: L, k: Id)
    requires
        m.shape(),
        m.knows(key),
        m.has(k),
    ensures
        reinterned(m, key, k).shape(),
{
    let n = reinterned(m, key, k);
    assert forall|i: int, a: int|
        #![trigger n.nodes[i][a]]
        0 <= i < n.len() && 0 <= a < n.nodes[i].len() implies n.knows(n.nodes[i][a]) by {
        assert(m.knows(m.nodes[i][a]));
    }
    assert forall|i: int, e: int|
        #![trigger n.parents[i][e]]
        0 <= i < n.len() && 0 <= e < n.parents[i].len() implies n.entry_ok(n.parents[i][e]) by {
        assert(m.entry_ok(m.parents[i][e]));
    }
    assert forall|q: L| #[trigger] n.memo.contains_key(q) implies n.knows(q) && n.has(
        n.memo[q],
    ) by {
        if q != key {
            assert(m.memo.contains_key(q));
        }
    }
}

/// Putting the re-interned entries back.
pub proof fn lemma_put_back<L: Language>(m: Model<L>, home: Id, entries: Seq<(L, Id)>)
    requires
        lawful::<L>(),
        m.shape(),
        m.has(home),
        m.consistent_with(home, entries, Seq::empty()),
    ensures
        put_back(m, m.root(home), entries).shape(),
        put_back(m, m.root(home), entries).consistent(),
        keeps_nodes(m, put_back(m, m.root(home), entries)),
{
    reveal(Model::consistent_with);
    let c = m.root(home);
    let n = put_back(m, c, entries);
    assert(m.root(c) == c);
    let had = m.parents[c.at()].len() as int;
    assert forall|i: int, e: int|
        #![trigger n.parents[i][e]]
        0 <= i < n.len() && 0 <= e < n.parents[i].len() implies n.entry_ok(n.parents[i][e])
        && n.real_entry(Id(i as u32), n.parents[i][e]) by {
        if i == c.at() && e >= had {
            assert(n.parents[i][e] == entries[e - had]);
            assert(m.entry_ok(entries[e - had]) && m.real_entry(c, entries[e - had]));
        } else {
            assert(n.parents[i][e] == m.parents[i][e]);
            assert(m.entry_ok(m.parents[i][e]));
            assert(m.real_entry(Id(i as u32), m.parents[i][e]));
        }
    }
    assert forall|i: int, a: int|
        #![trigger n.nodes[i][a]]
        0 <= i < n.len() && 0 <= a < n.nodes[i].len() implies n.knows(n.nodes[i][a])
        && n.covers(Seq::empty(), n.nodes[i][a], Id(i as u32)) by {
        assert(m.knows(m.nodes[i][a]));
        assert(m.covers(Seq::empty(), m.nodes[i][a], Id(i as u32)));
        let node = m.nodes[i][a];
        if !m.interned(node, Id(i as u32)) {
            let p = choose|p: int|
                0 <= p < m.pending.len() && mentions(
                    m.roots,
                    node,
                    m.root(#[trigger] m.pending[p]),
                );
            assert(mentions(n.roots, node, n.root(n.pending[p])));
        }
    }
    assert(n.placed(Seq::empty())) by {
        assert forall|i: int, e: int|
            #![trigger n.parents[i][e]]
            0 <= i < n.len() && 0 <= e < n.parents[i].len() implies n.placed_entry(
            n.parents[i][e],
        ) by {
            if i == c.at() && e >= had {
                assert(n.parents[i][e] == entries[e - had]);
                assert(m.placed_entry(entries[e - had]));
            } else {
                assert(n.parents[i][e] == m.parents[i][e]);
                assert(m.placed_entry(m.parents[i][e]));
            }
        }
    }
    assert forall|i: int| #![trigger n.parents[i]] 0 <= i < n.len() && n.roots[i] != Id(
        i as u32,
    ) implies n.parents[i].len() == 0 by {
        assert(m.parents[i].len() == 0);
    }
    assert forall|i: int| #![trigger n.nodes[i]] 0 <= i < n.len() && n.roots[i] != Id(
        i as u32,
    ) implies n.nodes[i].len() == 0 by {
        assert(m.nodes[i].len() == 0);
    }
    assert(n.shape()) by {
        assert forall|key: L| #[trigger] n.memo.contains_key(key) implies n.knows(key) && n.has(
            n.memo[key],
        ) by {
            assert(m.memo.contains_key(key));
        }
    }
    assert(n.grounded()) by {
        assert forall|i: int| 0 <= i < n.len() implies #[trigger] n.grounded_at(i) by {
            assert(m.grounded_at(i));
            let id = Id(i as u32);
            let a = choose|a: int|
                0 <= a < m.class(id).len() && older_kids(m.roots, #[trigger] m.class(id)[a], i);
            assert(older_kids(n.roots, n.class(id)[a], i));
        }
    }
    assert forall|x: int, a: int, j: int|
        #![trigger n.nodes[x][a].kids()[j]]
        0 <= x < n.len() && 0 <= a < n.nodes[x].len() && 0 <= j
            < n.nodes[x][a].kids().len() implies n.listed(
        Id(0),
        Seq::empty(),
        n.nodes[x][a],
        Id(x as u32),
        n.nodes[x][a].kids()[j],
    ) by {
        let child = m.nodes[x][a].kids()[j];
        let id = Id(x as u32);
        assert(m.listed(home, entries, m.nodes[x][a], id, child));
        let form = canon(m.roots, m.nodes[x][a]);
        let list = m.parents[m.root(child).at()];
        let now = n.parents[m.root(child).at()];
        if holds_entry(m.roots, list, form, id) {
            let e = choose|e: int|
                0 <= e < list.len() && canon(m.roots, (#[trigger] list[e]).0) == form
                    && m.roots[list[e].1.at()] == id;
            assert(now[e] == list[e]);
        } else {
            let e = choose|e: int|
                0 <= e < entries.len() && canon(m.roots, (#[trigger] entries[e]).0) == form
                    && m.roots[entries[e].1.at()] == id;
            assert(now[had + e] == entries[e]);
        }
    }
    assert(n.sound()) by {
        assert forall|key: L| #[trigger] n.memo.contains_key(key) implies holds_node(
            n.roots,
            n.class(n.memo[key]),
            canon(n.roots, key),
        ) by {
            assert(m.memo.contains_key(key));
        }
    }
    lemma_same_nodes_kept(m, n);
}

} // verus!
