//! The proof forest: undirected justification edges between the ids that were
//! merged. Two ids are equal exactly when the forest connects them, and then
//! by one simple chain of steps only.

use super::lang::Id;
use super::unionfind::joined;
use vstd::prelude::*;

verus! {

/// Why two ids were made equal.
#[verifier::ext_equal]
pub enum Reason {
    /// A rule of this name.
    Rule(Seq<char>),
    /// The children of two nodes of one operator became equal: the pairs of
    /// ids that have to be equal for it.
    Congruence(Seq<(Id, Id)>),
}

/// A chain of steps: every entry but the first names the reason for the step
/// that leads to it.
pub type Chain = Seq<(Id, Reason)>;

/// The edges at every id.
pub type Edges = Seq<Seq<(Id, Reason)>>;

/// Every entry is a known id, and every step follows an edge.
pub open spec fn is_chain(edges: Edges, chain: Chain) -> bool {
    &&& chain.len() > 0
    &&& forall|i: int| 0 <= i < chain.len() ==> (#[trigger] chain[i]).0.at() < edges.len()
    &&& forall|i: int|
        0 < i < chain.len() ==> edges[chain[i - 1].0.at()].contains(#[trigger] chain[i])
}

/// No id occurs twice.
pub open spec fn is_simple(chain: Chain) -> bool {
    forall|i: int, j: int|
        #![trigger chain[i], chain[j]]
        0 <= i < j < chain.len() ==> chain[i].0 != chain[j].0
}

/// The entry every explanation starts with.
pub open spec fn start_at(a: Id) -> (Id, Reason) {
    (a, Reason::Rule(Seq::empty()))
}

/// A chain from `a` to `b`.
pub open spec fn explains(edges: Edges, chain: Chain, a: Id, b: Id) -> bool {
    &&& is_chain(edges, chain)
    &&& chain[0] == start_at(a)
    &&& chain.last().0 == b
}

/// A chain from `a` to `b` without detours.
pub open spec fn explains_simply(edges: Edges, chain: Chain, a: Id, b: Id) -> bool {
    explains(edges, chain, a, b) && is_simple(chain)
}

/// The edges connect `a` and `b`.
pub open spec fn connected(edges: Edges, a: Id, b: Id) -> bool {
    exists|chain: Chain| #[trigger] explains(edges, chain, a, b)
}

/// The explanation for the equality of two connected ids.
pub open spec fn explanation(edges: Edges, a: Id, b: Id) -> Chain {
    choose|chain: Chain| #[trigger] explains_simply(edges, chain, a, b)
}

/// All pairs of a congruence are known ids and equal.
pub open spec fn pairs_equal(roots: Seq<Id>, reason: Reason) -> bool {
    match reason {
        Reason::Rule(name) => true,
        Reason::Congruence(pairs) => forall|i: int|
            #![trigger pairs[i]]
            0 <= i < pairs.len() ==> pairs[i].0.at() < roots.len() && pairs[i].1.at() < roots.len()
                && roots[pairs[i].0.at()] == roots[pairs[i].1.at()],
    }
}

/// One pair of a congruence.
pub proof fn lemma_pair_equal(roots: Seq<Id>, pairs: Seq<(Id, Id)>, i: int)
    requires
        pairs_equal(roots, Reason::Congruence(pairs)),
        0 <= i < pairs.len(),
    ensures
        pairs[i].0.at() < roots.len(),
        pairs[i].1.at() < roots.len(),
        roots[pairs[i].0.at()] == roots[pairs[i].1.at()],
{
    let reason = Reason::Congruence(pairs);
    assert(reason->Congruence_0[i] == pairs[i]);
}

/// Every edge joins equal ids, for a reason whose pairs are equal too.
pub open spec fn edges_ok(roots: Seq<Id>, edges: Edges) -> bool {
    &&& edges.len() == roots.len()
    &&& forall|x: int, e: int|
        #![trigger edges[x][e]]
        0 <= x < edges.len() && 0 <= e < edges[x].len() ==> edge_ok(roots, x, edges[x][e])
}

pub open spec fn edge_ok(roots: Seq<Id>, x: int, edge: (Id, Reason)) -> bool {
    &&& edge.0.at() < roots.len()
    &&& roots[edge.0.at()] == roots[x]
    &&& pairs_equal(roots, edge.1)
}

/// Equal ids are connected.
pub open spec fn all_connected(roots: Seq<Id>, edges: Edges) -> bool {
    forall|a: Id, b: Id|
        #![trigger connected(edges, a, b)]
        a.at() < roots.len() && b.at() < roots.len() && roots[a.at()] == roots[b.at()]
            ==> connected(edges, a, b)
}

/// There is at most one simple chain between two ids.
pub open spec fn unique_chains(edges: Edges) -> bool {
    forall|c: Chain, d: Chain, a: Id, b: Id| #[trigger]
        explains_simply(edges, c, a, b) && #[trigger] explains_simply(edges, d, a, b) ==> c == d
}

/// The proof forest of a graph with canonical ids `roots`.
#[verifier::opaque]
pub open spec fn is_forest(roots: Seq<Id>, edges: Edges) -> bool {
    &&& edges_ok(roots, edges)
    &&& all_connected(roots, edges)
    &&& unique_chains(edges)
    &&& both_ways(edges)
}

/// Every edge is there at both of its ends.
pub open spec fn both_ways(edges: Edges) -> bool {
    forall|x: int, e: int|
        #![trigger edges[x][e]]
        0 <= x < edges.len() && 0 <= e < edges[x].len() ==> edges[edges[x][e].0.at()].contains(
            (Id(x as u32), edges[x][e].1),
        )
}

/// A chain read from its end to its start.
pub open spec fn backwards(chain: Chain) -> Chain {
    Seq::new(
        chain.len(),
        |k: int|
            if k == 0 {
                start_at(chain.last().0)
            } else {
                (chain[chain.len() - 1 - k].0, chain[chain.len() - k].1)
            },
    )
}

/// A chain without detours, read backwards, is one too.
pub proof fn lemma_backwards(roots: Seq<Id>, edges: Edges, chain: Chain, a: Id, b: Id)
    requires
        is_forest(roots, edges),
        explains_simply(edges, chain, a, b),
    ensures
        explains_simply(edges, backwards(chain), b, a),
{
    reveal(is_forest);
    let back = backwards(chain);
    let n = chain.len() as int;
    assert forall|i: int| 0 <= i < back.len() implies (#[trigger] back[i]).0.at() < edges.len() by {
        assert(back[i].0 == chain[n - 1 - i].0);
    }
    assert forall|i: int| 0 < i < back.len() implies edges[back[i - 1].0.at()].contains(
        #[trigger] back[i],
    ) by {
        let (from, to) = (chain[n - 1 - i], chain[n - i]);
        assert(back[i - 1].0 == to.0);
        let x = from.0.at();
        assert(edges[x].contains(chain[n - i]));
        let e = choose|e: int| 0 <= e < edges[x].len() && edges[x][e] == to;
        assert(edges[edges[x][e].0.at()].contains((Id(x as u32), edges[x][e].1)));
        assert(Id(x as u32) == from.0);
    }
    assert forall|i: int, j: int|
        #![trigger back[i], back[j]]
        0 <= i < j < back.len() implies back[i].0 != back[j].0 by {
        assert(back[i].0 == chain[n - 1 - i].0);
        assert(back[j].0 == chain[n - 1 - j].0);
    }
    assert(back.last().0 == chain[0].0);
}

/// The edges with one more, between `x` and `y`.
pub open spec fn with_edge(edges: Edges, x: Id, y: Id, reason: Reason) -> Edges {
    edges.update(x.at(), edges[x.at()].push((y, reason))).update(
        y.at(),
        edges[y.at()].push((x, reason)),
    )
}

/// All ids of a chain are equal.
pub proof fn lemma_chain_class(roots: Seq<Id>, edges: Edges, chain: Chain, i: int)
    requires
        edges_ok(roots, edges),
        is_chain(edges, chain),
        0 <= i < chain.len(),
    ensures
        roots[chain[i].0.at()] == roots[chain[0].0.at()],
    decreases i,
{
    if i > 0 {
        lemma_chain_class(roots, edges, chain, i - 1);
        let x = chain[i - 1].0.at();
        assert(edges[x].contains(chain[i]));
        let e = choose|e: int| 0 <= e < edges[x].len() && edges[x][e] == chain[i];
        assert(edge_ok(roots, x, edges[x][e]));
    }
}

/// A chain that is not simple can be shortened: some of its steps are enough.
pub proof fn lemma_shorten(edges: Edges, chain: Chain, a: Id, b: Id) -> (short: Chain)
    requires
        explains(edges, chain, a, b),
    ensures
        explains_simply(edges, short, a, b),
        short.len() <= chain.len(),
        forall|k: int|
            #![trigger short[k]]
            0 < k < short.len() ==> exists|l: int|
                0 < l < chain.len() && #[trigger] chain[l] == short[k],
    decreases chain.len(),
{
    if is_simple(chain) {
        chain
    } else {
        let (i, j) = choose|i: int, j: int|
            #![trigger chain[i], chain[j]]
            0 <= i < j < chain.len() && chain[i].0 == chain[j].0;
        let cut = chain.subrange(0, i + 1) + chain.subrange(j + 1, chain.len() as int);
        assert(is_chain(edges, cut)) by {
            assert forall|k: int| 0 <= k < cut.len() implies (#[trigger] cut[k]).0.at()
                < edges.len() by {
                if k <= i {
                    assert(cut[k] == chain[k]);
                } else {
                    assert(cut[k] == chain[k - i + j]);
                }
            }
            assert forall|k: int| 0 < k < cut.len() implies edges[cut[k - 1].0.at()].contains(
                #[trigger] cut[k],
            ) by {
                if k <= i {
                    assert(cut[k] == chain[k]);
                    assert(cut[k - 1] == chain[k - 1]);
                } else {
                    assert(cut[k] == chain[k - i + j]);
                    if k == i + 1 {
                        assert(cut[k - 1] == chain[i]);
                        assert(chain[k - i + j - 1] == chain[j]);
                    } else {
                        assert(cut[k - 1] == chain[k - i + j - 1]);
                    }
                }
            }
        }
        assert(cut[0] == chain[0]);
        assert(cut.last().0 == b) by {
            if j + 1 < chain.len() {
                assert(cut.last() == chain.last());
            } else {
                assert(cut.last() == chain[i]);
            }
        }
        let short = lemma_shorten(edges, cut, a, b);
        assert forall|k: int| #![trigger short[k]] 0 < k < short.len() implies exists|l: int|
            0 < l < chain.len() && #[trigger] chain[l] == short[k] by {
            let l = choose|l: int| 0 < l < cut.len() && #[trigger] cut[l] == short[k];
            if l <= i {
                assert(chain[l] == short[k]);
            } else {
                assert(chain[l - i + j] == short[k]);
            }
        }
        short
    }
}

/// Equal ids have an explanation, it is the only simple chain between them,
/// and no other chain between them is shorter.
pub proof fn lemma_explanation(roots: Seq<Id>, edges: Edges, a: Id, b: Id)
    requires
        is_forest(roots, edges),
        a.at() < roots.len(),
        b.at() < roots.len(),
        roots[a.at()] == roots[b.at()],
    ensures
        explains_simply(edges, explanation(edges, a, b), a, b),
        forall|chain: Chain| #[trigger]
            explains_simply(edges, chain, a, b) ==> chain == explanation(edges, a, b),
        forall|chain: Chain| #[trigger]
            explains(edges, chain, a, b) ==> explanation(edges, a, b).len() <= chain.len(),
{
    reveal(is_forest);
    assert(connected(edges, a, b));
    let some = choose|chain: Chain| #[trigger] explains(edges, chain, a, b);
    let short = lemma_shorten(edges, some, a, b);
    assert(explains_simply(edges, short, a, b));
    let e = explanation(edges, a, b);
    assert(explains_simply(edges, e, a, b));
    assert forall|chain: Chain| #[trigger] explains(edges, chain, a, b) implies e.len()
        <= chain.len() by {
        let s = lemma_shorten(edges, chain, a, b);
        assert(s == e);
    }
}

/// Two ids are connected exactly when they are equal.
pub proof fn lemma_connected_iff_equal(roots: Seq<Id>, edges: Edges, a: Id, b: Id)
    requires
        is_forest(roots, edges),
        a.at() < roots.len(),
        b.at() < roots.len(),
    ensures
        connected(edges, a, b) <==> roots[a.at()] == roots[b.at()],
{
    reveal(is_forest);
    if connected(edges, a, b) {
        let chain = choose|chain: Chain| #[trigger] explains(edges, chain, a, b);
        lemma_chain_class(roots, edges, chain, chain.len() - 1);
    }
}

/// The step from entry `i - 1` to entry `i` uses the edge between `x` and `y`.
spec fn crosses(chain: Chain, x: Id, y: Id, i: int) -> bool {
    ||| chain[i - 1].0 == x && chain[i].0 == y
    ||| chain[i - 1].0 == y && chain[i].0 == x
}

/// A step of the new forest that does not cross is a step of the old one.
proof fn lemma_old_step(
    edges: Edges,
    x: Id,
    y: Id,
    reason: Reason,
    from: Id,
    to: (Id, Reason),
)
    requires
        x.at() < edges.len(),
        y.at() < edges.len(),
        x != y,
        from.at() < edges.len(),
        with_edge(edges, x, y, reason)[from.at()].contains(to),
        !(from == x && to.0 == y),
        !(from == y && to.0 == x),
    ensures
        edges[from.at()].contains(to),
{
    let more = with_edge(edges, x, y, reason);
    let e = choose|e: int| 0 <= e < more[from.at()].len() && more[from.at()][e] == to;
    if from == x {
        assert(e < edges[x.at()].len());
        assert(edges[x.at()][e] == to);
    } else if from == y {
        assert(e < edges[y.at()].len());
        assert(edges[y.at()][e] == to);
    }
}

/// A crossing step carries the reason of the new edge.
proof fn lemma_new_step(
    roots: Seq<Id>,
    edges: Edges,
    x: Id,
    y: Id,
    reason: Reason,
    from: Id,
    to: (Id, Reason),
)
    requires
        edges_ok(roots, edges),
        x.at() < edges.len(),
        y.at() < edges.len(),
        roots[x.at()] != roots[y.at()],
        with_edge(edges, x, y, reason)[from.at()].contains(to),
        (from == x && to.0 == y) || (from == y && to.0 == x),
    ensures
        to.1 == reason,
{
    let more = with_edge(edges, x, y, reason);
    let e = choose|e: int| 0 <= e < more[from.at()].len() && more[from.at()][e] == to;
    if e < edges[from.at()].len() {
        assert(edges[from.at()][e] == to);
        assert(edge_ok(roots, from.at(), edges[from.at()][e]));
        assert(false);
    }
}

/// An old chain is a new chain.
proof fn lemma_chain_grows(edges: Edges, x: Id, y: Id, reason: Reason, chain: Chain)
    requires
        x.at() < edges.len(),
        y.at() < edges.len(),
        x != y,
        is_chain(edges, chain),
    ensures
        is_chain(with_edge(edges, x, y, reason), chain),
{
    let more = with_edge(edges, x, y, reason);
    assert forall|i: int| 0 < i < chain.len() implies more[chain[i - 1].0.at()].contains(
        #[trigger] chain[i],
    ) by {
        let f = chain[i - 1].0.at();
        let e = choose|e: int| 0 <= e < edges[f].len() && edges[f][e] == chain[i];
        assert(more[f][e] == chain[i]);
    }
}

/// The tail of a chain, as a chain of its own.
spec fn tail_from(chain: Chain, i: int) -> Chain {
    seq![start_at(chain[i].0)] + chain.subrange(i + 1, chain.len() as int)
}

/// A simple new chain either is an old chain, or splits at its only crossing
/// into two old chains.
#[verifier::spinoff_prover]
#[verifier::rlimit(40)]
proof fn lemma_split(
    roots: Seq<Id>,
    edges: Edges,
    x: Id,
    y: Id,
    reason: Reason,
    chain: Chain,
    a: Id,
    b: Id,
) -> (at: int)
    requires
        edges_ok(roots, edges),
        x.at() < edges.len(),
        y.at() < edges.len(),
        roots[x.at()] != roots[y.at()],
        explains_simply(with_edge(edges, x, y, reason), chain, a, b),
    ensures
        0 <= at < chain.len(),
        at == 0 ==> explains_simply(edges, chain, a, b) && roots[a.at()] == roots[b.at()],
        at > 0 ==> {
            &&& crosses(chain, x, y, at)
            &&& chain[at].1 == reason
            &&& explains_simply(edges, chain.subrange(0, at), a, chain[at - 1].0)
            &&& explains_simply(edges, tail_from(chain, at), chain[at].0, b)
            &&& roots[a.at()] == roots[chain[at - 1].0.at()]
            &&& roots[b.at()] == roots[chain[at].0.at()]
            &&& roots[a.at()] != roots[b.at()]
        },
{
    let more = with_edge(edges, x, y, reason);
    if exists|i: int| 0 < i < chain.len() && #[trigger] crosses(chain, x, y, i) {
        let at = choose|i: int| 0 < i < chain.len() && #[trigger] crosses(chain, x, y, i);
        let (p, q) = (chain.subrange(0, at), tail_from(chain, at));
        assert(more[chain[at - 1].0.at()].contains(chain[at]));
        lemma_new_step(roots, edges, x, y, reason, chain[at - 1].0, chain[at]);
        assert forall|i: int| 0 < i < chain.len() && i != at implies edges[chain[i
            - 1].0.at()].contains(#[trigger] chain[i]) by {
            assert(more[chain[i - 1].0.at()].contains(chain[i]));
            assert(!crosses(chain, x, y, i)) by {
                if i < at {
                    assert(chain[i - 1].0 != chain[at].0);
                    assert(chain[i - 1].0 != chain[at - 1].0);
                } else {
                    assert(chain[at - 1].0 != chain[i].0);
                    assert(chain[at].0 != chain[i].0);
                }
            }
            lemma_old_step(edges, x, y, reason, chain[i - 1].0, chain[i]);
        }
        assert(is_chain(edges, p));
        assert(is_chain(edges, q)) by {
            assert forall|i: int| 0 <= i < q.len() implies (#[trigger] q[i]).0.at()
                < edges.len() by {
                assert(q[i].0 == chain[at + i].0);
                assert(chain[at + i].0.at() < more.len());
            }
            assert forall|i: int| 0 < i < q.len() implies edges[q[i - 1].0.at()].contains(
                #[trigger] q[i],
            ) by {
                assert(q[i] == chain[at + i]);
                assert(q[i - 1].0 == chain[at + i - 1].0);
            }
        }
        assert(is_simple(q)) by {
            assert forall|i: int, j: int|
                #![trigger q[i], q[j]]
                0 <= i < j < q.len() implies q[i].0 != q[j].0 by {
                assert(q[i].0 == chain[at + i].0);
                assert(q[j].0 == chain[at + j].0);
            }
        }
        assert(q.last().0 == b) by {
            assert(q.last().0 == chain.last().0);
        }
        assert(p.last() == chain[at - 1]);
        assert(p[0] == chain[0]);
        lemma_chain_class(roots, edges, p, p.len() - 1);
        lemma_chain_class(roots, edges, q, q.len() - 1);
        at
    } else {
        assert(is_chain(edges, chain)) by {
            assert forall|i: int| 0 < i < chain.len() implies edges[chain[i - 1].0.at()].contains(
                #[trigger] chain[i],
            ) by {
                assert(!crosses(chain, x, y, i));
                lemma_old_step(edges, x, y, reason, chain[i - 1].0, chain[i]);
            }
        }
        lemma_chain_class(roots, edges, chain, chain.len() - 1);
        0
    }
}

proof fn lemma_unique_grows(roots: Seq<Id>, edges: Edges, x: Id, y: Id, reason: Reason)
    requires
        edges_ok(roots, edges),
        unique_chains(edges),
        x.at() < edges.len(),
        y.at() < edges.len(),
        roots[x.at()] != roots[y.at()],
    ensures
        unique_chains(with_edge(edges, x, y, reason)),
{
    let more = with_edge(edges, x, y, reason);
    assert forall|c: Chain, d: Chain, a: Id, b: Id| #[trigger]
        explains_simply(more, c, a, b) && #[trigger] explains_simply(more, d, a, b) implies c
        == d by {
        let i = lemma_split(roots, edges, x, y, reason, c, a, b);
        let j = lemma_split(roots, edges, x, y, reason, d, a, b);
        if i > 0 {
            assert(j > 0);
            assert(c[i - 1].0 == d[j - 1].0);
            assert(c[i].0 == d[j].0);
            assert(c.subrange(0, i) == d.subrange(0, j));
            assert(c.subrange(0, i).len() == d.subrange(0, j).len());
            assert(i == j);
            let (s, t) = (tail_from(c, i), tail_from(d, i));
            assert(s == t);
            assert(s.len() == t.len());
            assert forall|k: int| 0 <= k < c.len() implies c[k] == d[k] by {
                if k < i {
                    assert(c.subrange(0, i)[k] == d.subrange(0, j)[k]);
                } else if k > i {
                    assert(s[k - i] == t[k - i]);
                }
            }
            assert(c =~= d);
        }
    }
}

/// The step back.
proof fn lemma_connected_grows(
    roots: Seq<Id>,
    edges: Edges,
    x: Id,
    y: Id,
    reason: Reason,
    a: Id,
    b: Id,
)
    requires
        x.at() < edges.len(),
        y.at() < edges.len(),
        x != y,
        connected(edges, a, x),
        connected(edges, y, b),
    ensures
        connected(with_edge(edges, x, y, reason), a, b),
        connected(with_edge(edges, y, x, reason), a, b),
{
    let more = with_edge(edges, x, y, reason);
    assert(with_edge(edges, y, x, reason) =~= more);
    let p = choose|chain: Chain| #[trigger] explains(edges, chain, a, x);
    let q = choose|chain: Chain| #[trigger] explains(edges, chain, y, b);
    lemma_chain_grows(edges, x, y, reason, p);
    lemma_chain_grows(edges, x, y, reason, q);
    let rest = q.subrange(1, q.len() as int);
    let chain = p.push((y, reason)) + rest;
    let n = p.len() as int;
    assert(is_chain(more, chain)) by {
        assert forall|i: int| 0 <= i < chain.len() implies (#[trigger] chain[i]).0.at()
            < more.len() by {
            if i < n {
                assert(chain[i] == p[i]);
            } else if i > n {
                assert(chain[i] == q[i - n]);
            }
        }
        assert forall|i: int| 0 < i < chain.len() implies more[chain[i - 1].0.at()].contains(
            #[trigger] chain[i],
        ) by {
            if i < n {
                assert(chain[i] == p[i] && chain[i - 1] == p[i - 1]);
            } else if i == n {
                assert(chain[i - 1] == p.last());
                assert(more[x.at()].last() == (y, reason));
            } else {
                assert(chain[i] == q[i - n]);
                assert(chain[i - 1].0 == q[i - n - 1].0);
            }
        }
    }
    assert(chain[0] == p[0]);
    assert(chain.last().0 == b) by {
        if q.len() > 1 {
            assert(chain.last() == q.last());
        } else {
            assert(chain.last() == (y, reason));
        }
    }
    assert(explains(more, chain, a, b));
}

/// Joining two classes with an edge between two of their members keeps a
/// forest a forest.
pub proof fn lemma_forest_grows(
    roots: Seq<Id>,
    edges: Edges,
    x: Id,
    y: Id,
    reason: Reason,
    survivor: Id,
    absorbed: Id,
)
    requires
        is_forest(roots, edges),
        x.at() < roots.len(),
        y.at() < roots.len(),
        roots[x.at()] != roots[y.at()],
        (survivor == roots[x.at()] && absorbed == roots[y.at()]) || (survivor == roots[y.at()]
            && absorbed == roots[x.at()]),
        pairs_equal(roots, reason),
    ensures
        is_forest(joined(roots, survivor, absorbed), with_edge(edges, x, y, reason)),
{
    reveal(is_forest);
    let more = with_edge(edges, x, y, reason);
    let next = joined(roots, survivor, absorbed);
    assert(edges_ok(next, more)) by {
        assert forall|z: int, e: int|
            #![trigger more[z][e]]
            0 <= z < more.len() && 0 <= e < more[z].len() implies edge_ok(next, z, more[z][e]) by {
            if e < edges[z].len() {
                assert(more[z][e] == edges[z][e]);
                assert(edge_ok(roots, z, edges[z][e]));
            }
        }
    }
    assert(both_ways(more)) by {
        assert forall|z: int, e: int|
            #![trigger more[z][e]]
            0 <= z < more.len() && 0 <= e
                < more[z].len() implies more[more[z][e].0.at()].contains(
            (Id(z as u32), more[z][e].1),
        ) by {
            let back = (Id(z as u32), more[z][e].1);
            if e < edges[z].len() {
                assert(more[z][e] == edges[z][e]);
                assert(edge_ok(roots, z, edges[z][e]));
                let to = edges[z][e].0.at();
                assert(edges[to].contains(back));
                let f = choose|f: int| 0 <= f < edges[to].len() && edges[to][f] == back;
                assert(more[to][f] == back);
            } else if z == x.at() {
                assert(more[y.at()][edges[y.at()].len() as int] == back);
            } else {
                assert(more[x.at()][edges[x.at()].len() as int] == back);
            }
        }
    }
    lemma_unique_grows(roots, edges, x, y, reason);
    assert forall|a: Id, b: Id|
        #![trigger connected(more, a, b)]
        a.at() < next.len() && b.at() < next.len() && next[a.at()] == next[b.at()] implies connected(
        more,
        a,
        b,
    ) by {
        let (ra, rb) = (roots[a.at()], roots[b.at()]);
        if ra == rb {
            assert(connected(edges, a, b));
            let chain = choose|chain: Chain| #[trigger] explains(edges, chain, a, b);
            lemma_chain_grows(edges, x, y, reason, chain);
            assert(explains(more, chain, a, b));
        } else if ra == roots[x.at()] {
            assert(connected(edges, a, x));
            assert(connected(edges, y, b));
            lemma_connected_grows(roots, edges, x, y, reason, a, b);
        } else {
            assert(connected(edges, a, y));
            assert(connected(edges, x, b));
            lemma_connected_grows(roots, edges, y, x, reason, a, b);
        }
    }
}

/// A new id without edges keeps a forest a forest.
pub proof fn lemma_forest_new_id(roots: Seq<Id>, edges: Edges, id: Id)
    requires
        is_forest(roots, edges),
        id.at() == roots.len(),
        forall|i: int| #![trigger roots[i]] 0 <= i < roots.len() ==> roots[i].at() < roots.len(),
    ensures
        is_forest(roots.push(id), edges.push(Seq::empty())),
{
    reveal(is_forest);
    let (next, more) = (roots.push(id), edges.push(Seq::empty()));
    assert(edges_ok(next, more)) by {
        assert forall|z: int, e: int|
            #![trigger more[z][e]]
            0 <= z < more.len() && 0 <= e < more[z].len() implies edge_ok(next, z, more[z][e]) by {
            assert(more[z][e] == edges[z][e]);
            assert(edge_ok(roots, z, edges[z][e]));
        }
    }
    assert(both_ways(more)) by {
        assert forall|z: int, e: int|
            #![trigger more[z][e]]
            0 <= z < more.len() && 0 <= e
                < more[z].len() implies more[more[z][e].0.at()].contains(
            (Id(z as u32), more[z][e].1),
        ) by {
            assert(more[z][e] == edges[z][e]);
            assert(edge_ok(roots, z, edges[z][e]));
            assert(edges[edges[z][e].0.at()].contains((Id(z as u32), edges[z][e].1)));
        }
    }
    assert forall|chain: Chain, a: Id, b: Id| #[trigger]
        explains(more, chain, a, b) implies chain.len() == 1 || explains(edges, chain, a, b) by {
        if chain.len() > 1 {
            lemma_new_id_chain(roots, edges, chain, id);
        }
    }
    assert forall|c: Chain, d: Chain, a: Id, b: Id| #[trigger]
        explains_simply(more, c, a, b) && #[trigger] explains_simply(more, d, a, b) implies c
        == d by {
        assert(explains(more, c, a, b));
        assert(explains(more, d, a, b));
        if c.len() == 1 && d.len() == 1 {
            assert(c =~= d);
        } else {
            assert(c.len() == 1 ==> a == b);
            assert(d.len() == 1 ==> a == b);
            if c.len() > 1 {
                if a == b {
                    assert(c[0].0 != c[c.len() - 1].0);
                }
            }
            if d.len() > 1 {
                if a == b {
                    assert(d[0].0 != d[d.len() - 1].0);
                }
            }
            assert(explains_simply(edges, c, a, b));
            assert(explains_simply(edges, d, a, b));
        }
    }
    assert forall|a: Id, b: Id|
        #![trigger connected(more, a, b)]
        a.at() < next.len() && b.at() < next.len() && next[a.at()] == next[b.at()] implies connected(
        more,
        a,
        b,
    ) by {
        if a == b {
            assert(explains(more, seq![start_at(a)], a, b));
        } else {
            assert(a.at() < roots.len() && b.at() < roots.len());
            assert(connected(edges, a, b));
            let chain = choose|chain: Chain| #[trigger] explains(edges, chain, a, b);
            assert(is_chain(more, chain)) by {
                assert forall|i: int| 0 < i < chain.len() implies more[chain[i
                    - 1].0.at()].contains(#[trigger] chain[i]) by {
                    assert(chain[i - 1].0.at() < edges.len());
                }
            }
            assert(explains(more, chain, a, b));
        }
    }
}

/// A chain of more than one entry does not reach an id without edges.
proof fn lemma_new_id_chain(roots: Seq<Id>, edges: Edges, chain: Chain, id: Id)
    requires
        edges_ok(roots, edges),
        id.at() == roots.len(),
        is_chain(edges.push(Seq::empty()), chain),
        chain.len() > 1,
    ensures
        is_chain(edges, chain),
{
    let more = edges.push(Seq::empty());
    assert forall|i: int| 0 < i < chain.len() implies edges[chain[i - 1].0.at()].contains(
        #[trigger] chain[i],
    ) && chain[i - 1].0.at() < edges.len() && chain[i].0.at() < edges.len() by {
        let f = chain[i - 1].0.at();
        assert(f < more.len());
        assert(more[f].contains(chain[i]));
        let e = choose|e: int| 0 <= e < more[f].len() && more[f][e] == chain[i];
        assert(f < edges.len());
        assert(edge_ok(roots, f, edges[f][e]));
    }
    assert forall|i: int| 0 <= i < chain.len() implies (#[trigger] chain[i]).0.at()
        < edges.len() by {
        if i == 0 {
            assert(edges[chain[0].0.at()].contains(chain[1]));
        }
    }
}

/// The empty forest.
pub proof fn lemma_forest_empty()
    ensures
        is_forest(Seq::empty(), Seq::empty()),
{
    reveal(is_forest);
    assert forall|c: Chain, d: Chain, a: Id, b: Id| #[trigger]
        explains_simply(Seq::empty(), c, a, b) && #[trigger] explains_simply(
        Seq::empty(),
        d,
        a,
        b,
    ) implies c == d by {
        assert(c[0].0.at() < Seq::<Seq<(Id, Reason)>>::empty().len());
    }
}

} // verus!
