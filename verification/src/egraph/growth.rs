//! Where the e-nodes that equality saturation adds come from.

use super::instantiate::lemma_stands_grows;
use super::lang::{lawful, lemma_same_op, Id, Language};
use super::matching::{bound_in, lemma_stands_class, stands_for, Bound};
use super::model::{canon, canon_ids, coarsens, lemma_canon_coarsens, lemma_canon_eq, Model};
use super::rewrite::{Lhs, Pattern, Rewrite, Rhs};
use super::{keeps_nodes, ClassData};
use vstd::prelude::*;

verus! {

/// `q` is the pattern `p` or a sub-pattern of it.
pub open spec fn within<L: Language>(p: Pattern<L>, q: Pattern<L>) -> bool
    decreases p,
{
    q == p || match p {
        Pattern::Var(name) => false,
        Pattern::Op { node, children } => exists|i: int|
            #![trigger children@[i]]
            0 <= i < children@.len() && within(children@[i], q),
    }
}

/// The e-node is the operator pattern `q` under the bindings `s`: it has the
/// operator, and its children stand for the sub-patterns.
pub open spec fn instance<L: Language>(m: Model<L>, node: L, q: Pattern<L>, s: Bound) -> bool {
    &&& m.knows(node)
    &&& bound_in(m, s)
    &&& q matches Pattern::Op { node: template, children } && node.same_op(&template) && forall|
        j: int,
    |
        #![trigger children@[j]]
        0 <= j < children@.len() && j < node.kids().len() ==> stands_for(
            m,
            node.kids()[j],
            children@[j],
            s,
        )
}

/// The row `k` holds one e-node, an instance of a part of `p`.
pub open spec fn fresh_at<L: Language>(n: Model<L>, k: int, p: Pattern<L>, s: Bound) -> bool {
    &&& n.nodes[k].len() == 1
    &&& exists|q: Pattern<L>| #[trigger] instance(n, n.nodes[k][0], q, s) && within(p, q)
}

/// All that `n` has beyond `m` are instances of parts of `p`.
pub open spec fn fresh_from<L: Language>(
    m: Model<L>,
    n: Model<L>,
    p: Pattern<L>,
    s: Bound,
) -> bool {
    forall|k: int| #![trigger n.nodes[k]] m.len() <= k < n.len() ==> fresh_at(n, k, p, s)
}

/// An instance stays one while the graph grows.
pub proof fn lemma_instance_grows<L: Language>(
    m: Model<L>,
    n: Model<L>,
    node: L,
    now: L,
    q: Pattern<L>,
    s: Bound,
)
    requires
        lawful::<L>(),
        m.shape(),
        n.shape(),
        coarsens(m.roots, n.roots),
        keeps_nodes(m, n),
        instance(m, node, q, s),
        n.knows(now),
        canon(n.roots, now) == canon(n.roots, node),
    ensures
        instance(n, now, q, s),
{
    assert forall|j: int| 0 <= j < node.kids().len() implies (#[trigger] node.kids()[j]).at()
        < n.len() by {
        assert(node.kids()[j].at() < m.len());
    }
    assert forall|name: Seq<char>| #[trigger] s.contains_key(name) implies n.has(s[name]) by {
        assert(m.has(s[name]));
    }
    lemma_canon_eq(n.roots, now, node);
    if let Pattern::Op { node: template, children } = q {
        lemma_same_op(&now, &node, &template);
        assert(canon_ids(n.roots, now.kids()).len() == canon_ids(n.roots, node.kids()).len());
        assert forall|j: int|
            #![trigger children@[j]]
            0 <= j < children@.len() && j < now.kids().len() implies stands_for(
            n,
            now.kids()[j],
            children@[j],
            s,
        ) by {
            assert(m.has(node.kids()[j]));
            lemma_stands_grows(m, n, node.kids()[j], children@[j], s);
            assert(canon_ids(n.roots, now.kids())[j] == canon_ids(n.roots, node.kids())[j]);
            lemma_stands_class(n, node.kids()[j], now.kids()[j], children@[j], s);
        }
    }
}

/// The e-node is a part of a side of one of the rules, under some bindings.
pub open spec fn instanced<L: Language, N: ClassData>(
    m: Model<L>,
    node: L,
    rules: Seq<Rewrite<L, N>>,
) -> bool {
    exists|q: Pattern<L>, s: Bound, i: int|
        #![trigger instance(m, node, q, s), rules[i]]
        0 <= i < rules.len() && instance(m, node, q, s) && side_within(rules[i], q)
}

/// `q` is a part of a static side of the rule.
pub open spec fn side_within<L: Language, N: ClassData>(rule: Rewrite<L, N>, q: Pattern<L>) -> bool {
    ||| rule.lhs matches Lhs::Pattern(p) && within(p, q)
    ||| rule.rhs matches Rhs::Pattern(r) && within(r, q)
}

/// `start` had an e-node that has the same canonical form now.
pub open spec fn stems<L: Language>(start: Model<L>, roots: Seq<Id>, node: L) -> bool {
    exists|k: int, a: int|
        0 <= k < start.len() && 0 <= a < start.nodes[k].len() && canon(
            roots,
            #[trigger] start.nodes[k][a],
        ) == canon(roots, node)
}

/// Every e-node of `now` was in `start`, up to canonical form, or is a part of
/// a side of one of the rules under some bindings.
pub open spec fn sprung<L: Language, N: ClassData>(
    start: Model<L>,
    now: Model<L>,
    rules: Seq<Rewrite<L, N>>,
) -> bool {
    forall|k: int, b: int|
        #![trigger now.nodes[k][b]]
        0 <= k < now.len() && 0 <= b < now.nodes[k].len() ==> stems(
            start,
            now.roots,
            now.nodes[k][b],
        ) || instanced(now, now.nodes[k][b], rules)
}

/// Nothing came in.
pub proof fn lemma_sprung_refl<L: Language, N: ClassData>(
    m: Model<L>,
    rules: Seq<Rewrite<L, N>>,
)
    ensures
        sprung(m, m, rules),
{
    assert forall|k: int, b: int|
        #![trigger m.nodes[k][b]]
        0 <= k < m.len() && 0 <= b < m.nodes[k].len() implies stems(
        m,
        m.roots,
        m.nodes[k][b],
    ) by {
        assert(canon(m.roots, m.nodes[k][b]) == canon(m.roots, m.nodes[k][b]));
    }
}

/// What came in, in two steps.
pub proof fn lemma_sprung_trans<L: Language, N: ClassData>(
    start: Model<L>,
    m: Model<L>,
    n: Model<L>,
    rules: Seq<Rewrite<L, N>>,
)
    requires
        lawful::<L>(),
        start.shape(),
        m.shape(),
        n.shape(),
        start.len() <= m.len(),
        coarsens(m.roots, n.roots),
        keeps_nodes(m, n),
        sprung(start, m, rules),
        sprung(m, n, rules),
    ensures
        sprung(start, n, rules),
{
    assert forall|k: int, b: int|
        #![trigger n.nodes[k][b]]
        0 <= k < n.len() && 0 <= b < n.nodes[k].len() implies stems(
        start,
        n.roots,
        n.nodes[k][b],
    ) || instanced(n, n.nodes[k][b], rules) by {
        let node = n.nodes[k][b];
        assert(n.knows(n.nodes[k][b]));
        if !instanced(n, node, rules) {
            assert(stems(m, n.roots, node));
            let (k1, a1) = choose|k1: int, a1: int|
                0 <= k1 < m.len() && 0 <= a1 < m.nodes[k1].len() && canon(
                    n.roots,
                    #[trigger] m.nodes[k1][a1],
                ) == canon(n.roots, node);
            let mid = m.nodes[k1][a1];
            assert(m.knows(m.nodes[k1][a1]));
            if stems(start, m.roots, mid) {
                let (k0, a0) = choose|k0: int, a0: int|
                    0 <= k0 < start.len() && 0 <= a0 < start.nodes[k0].len() && canon(
                        m.roots,
                        #[trigger] start.nodes[k0][a0],
                    ) == canon(m.roots, mid);
                let first = start.nodes[k0][a0];
                assert(start.knows(start.nodes[k0][a0]));
                assert forall|j: int|
                    0 <= j < first.kids().len() implies (#[trigger] first.kids()[j]).at()
                    < m.len() by {
                    assert(first.kids()[j].at() < start.len());
                }
                lemma_canon_coarsens(m.roots, n.roots, first, mid);
                assert(canon(n.roots, start.nodes[k0][a0]) == canon(n.roots, node));
            } else {
                assert(instanced(m, mid, rules));
                let (q, s, i) = choose|q: Pattern<L>, s: Bound, i: int|
                    #![trigger instance(m, mid, q, s), rules[i]]
                    0 <= i < rules.len() && instance(m, mid, q, s) && side_within(rules[i], q);
                lemma_instance_grows(m, n, mid, node, q, s);
                assert(instance(n, node, q, s) && side_within(rules[i], q));
                assert(instanced(n, node, rules));
            }
        }
    }
}

} // verus!
