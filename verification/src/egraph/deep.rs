//! Structural comparison of two e-nodes by a caller's predicate.

use super::lang::{Id, Language};
use super::model::Model;
use super::{ClassData, EGraph};
use std::collections::HashSet;
use vstd::prelude::*;
use vstd::set_lib::{lemma_set_subset_finite, FiniteFull};

verus! {

/// One number for a pair of ids.
pub open spec fn pair_code(a: Id, b: Id) -> u64 {
    (a.0 as int * 0x1_0000_0000 + b.0 as int) as u64
}

/// The pairs of ids that are not on the path.
pub open spec fn unseen(path: Set<u64>) -> Set<u64> {
    Set::<u64>::full().difference(path)
}

/// A longer path leaves fewer pairs.
pub proof fn lemma_unseen(path: Set<u64>, code: u64)
    requires
        !path.contains(code),
    ensures
        unseen(path.insert(code)).len() < unseen(path).len(),
{
    <u64 as FiniteFull>::full_properties();
    let all = Set::<u64>::full();
    lemma_set_subset_finite(all, unseen(path));
    assert(unseen(path.insert(code)) =~= unseen(path).remove(code));
    assert(unseen(path).contains(code));
}

/// The nodes match in depth: `same` accepts them, they have the same number of
/// children, and at every position the two child classes match. A pair of
/// classes that is being compared already counts as a match.
pub open spec fn deep_match<L: Language>(
    m: Model<L>,
    same: spec_fn(L, L) -> bool,
    path: Set<u64>,
    a: L,
    b: L,
) -> bool
    decreases unseen(path).len(), 0nat,
{
    &&& same(a, b)
    &&& a.kids().len() == b.kids().len()
    &&& forall|i: int|
        #![trigger a.kids()[i]]
        #![trigger b.kids()[i]]
        0 <= i < a.kids().len() ==> {
            let code = pair_code(m.root(a.kids()[i]), m.root(b.kids()[i]));
            path.contains(code) || {
                proof {
                    if !path.contains(code) {
                        lemma_unseen(path, code);
                    }
                }
                classes_match(
                    m,
                    same,
                    path.insert(code),
                    m.root(a.kids()[i]),
                    m.root(b.kids()[i]),
                )
            }
        }
}

/// Some e-node of class `x` matches some e-node of class `y` in depth.
pub open spec fn classes_match<L: Language>(
    m: Model<L>,
    same: spec_fn(L, L) -> bool,
    path: Set<u64>,
    x: Id,
    y: Id,
) -> bool
    decreases unseen(path).len(), 1nat,
{
    exists|p: int, q: int|
        #![trigger m.nodes[x.at()][p], m.nodes[y.at()][q]]
        0 <= p < m.nodes[x.at()].len() && 0 <= q < m.nodes[y.at()].len() && deep_match(
            m,
            same,
            path,
            m.nodes[x.at()][p],
            m.nodes[y.at()][q],
        )
}

/// The pairs that `pred` may accept.
pub open spec fn accepted<L, F: Fn(&L, &L) -> bool>(pred: F) -> spec_fn(L, L) -> bool {
    |a: L, b: L| call_ensures(pred, (&a, &b), true)
}

/// The pairs that `pred` cannot reject.
pub open spec fn never_rejected<L, F: Fn(&L, &L) -> bool>(pred: F) -> spec_fn(L, L) -> bool {
    |a: L, b: L| !call_ensures(pred, (&a, &b), false)
}

fn code_of(a: Id, b: Id) -> (code: u64)
    ensures
        code == pair_code(a, b),
{
    a.0 as u64 * 0x1_0000_0000 + b.0 as u64
}

impl<L: Language, N: ClassData> EGraph<L, N> {
    /// Structurally compare two e-nodes with a custom, per-node predicate,
    /// recursing through their children.
    ///
    /// `pred` decides whether two individual e-nodes match at a single level.
    /// Two nodes are considered a structural match when
    /// 1. `pred(a, b)` holds, and
    /// 2. they have the same number of children, and
    /// 3. every child position matches: for the child classes, some e-node of
    ///    the one structurally matches some e-node of the other.
    ///
    /// This is deliberately not equality in the graph: two nodes can match
    /// even if they live in different classes, and the other way round. The
    /// pairs of classes under comparison guard against cyclic classes.
    pub fn nodes_match_deep<F>(&self, a: &L, b: &L, pred: &F) -> (matched: bool) where
        F: Fn(&L, &L) -> bool,

        requires
            self.wf(),
            self.model().knows(*a),
            self.model().knows(*b),
            forall|x: L, y: L| #[trigger] call_requires(*pred, (&x, &y)),
        ensures
            matched ==> deep_match(self.model(), accepted(*pred), Set::empty(), *a, *b),
            !matched ==> !deep_match(self.model(), never_rejected(*pred), Set::empty(), *a, *b),
    {
        let mut visited: HashSet<u64> = HashSet::new();
        self.nodes_match_deep_inner(a, b, pred, &mut visited)
    }

    fn nodes_match_deep_inner<F>(
        &self,
        a: &L,
        b: &L,
        pred: &F,
        visited: &mut HashSet<u64>,
    ) -> (matched: bool) where F: Fn(&L, &L) -> bool
        requires
            self.wf(),
            self.model().knows(*a),
            self.model().knows(*b),
            forall|x: L, y: L| #[trigger] call_requires(*pred, (&x, &y)),
        ensures
            final(visited)@ == old(visited)@,
            matched ==> deep_match(self.model(), accepted(*pred), old(visited)@, *a, *b),
            !matched ==> !deep_match(self.model(), never_rejected(*pred), old(visited)@, *a, *b),
        decreases unseen(old(visited)@).len(), 0nat,
    {
        let ghost m = self.model();
        let ghost path = visited@;
        // The caller's predicate must accept this pair.
        let same = pred(a, b);
        if !same {
            assert(!(never_rejected(*pred))(*a, *b));
            return false;
        }
        assert((accepted(*pred))(*a, *b));
        if a.children().len() != b.children().len() {
            return false;
        }
        let mut i: usize = 0;
        while i < a.children().len()
            invariant
                self.wf(),
                m == self.model(),
                m.knows(*a),
                m.knows(*b),
                forall|x: L, y: L| #[trigger] call_requires(*pred, (&x, &y)),
                path == old(visited)@,
                visited@ == path,
                a.kids().len() == b.kids().len(),
                i <= a.kids().len(),
                forall|j: int|
                    #![trigger a.kids()[j]]
                    #![trigger b.kids()[j]]
                    0 <= j < i ==> {
                        let code = pair_code(m.root(a.kids()[j]), m.root(b.kids()[j]));
                        path.contains(code) || classes_match(
                            m,
                            accepted(*pred),
                            path.insert(code),
                            m.root(a.kids()[j]),
                            m.root(b.kids()[j]),
                        )
                    },
            decreases a.kids().len() - i,
        {
            let ai = a.children()[i];
            let bi = b.children()[i];
            assert(a.kids()[i as int] == ai && b.kids()[i as int] == bi);
            let ai = self.find_immut(ai);
            let bi = self.find_immut(bi);
            let code = code_of(ai, bi);
            // If this pair of classes is being compared upstream, treat it as
            // matching to break the cycle.
            if visited.insert(code) {
                proof {
                    lemma_unseen(path, code);
                }
                let matched = self.some_nodes_match(ai, bi, pred, visited);
                visited.remove(&code);
                assert(visited@ =~= path);
                if !matched {
                    proof {
                        assert(!classes_match(m, never_rejected(*pred), path.insert(code), ai, bi));
                        assert(!deep_match(m, never_rejected(*pred), path, *a, *b)) by {
                            assert(a.kids()[i as int] == a.kids()[i as int]);
                        }
                    }
                    return false;
                }
            } else {
                assert(visited@ =~= path);
            }
            i = i + 1;
        }
        true
    }

    /// Whether some e-node of class `x` matches some e-node of class `y`.
    fn some_nodes_match<F>(
        &self,
        x: Id,
        y: Id,
        pred: &F,
        visited: &mut HashSet<u64>,
    ) -> (matched: bool) where F: Fn(&L, &L) -> bool
        requires
            self.wf(),
            self.model().has(x),
            self.model().has(y),
            self.model().root(x) == x,
            self.model().root(y) == y,
            forall|x: L, y: L| #[trigger] call_requires(*pred, (&x, &y)),
        ensures
            final(visited)@ == old(visited)@,
            matched ==> classes_match(self.model(), accepted(*pred), old(visited)@, x, y),
            !matched ==> !classes_match(self.model(), never_rejected(*pred), old(visited)@, x, y),
        decreases unseen(old(visited)@).len(), 1nat,
    {
        let ghost m = self.model();
        let ghost path = visited@;
        proof {
            self.lemma_ranged();
        }
        let a_nodes = self.nodes(x);
        let b_nodes = self.nodes(y);
        let mut p: usize = 0;
        while p < a_nodes.len()
            invariant
                self.wf(),
                m == self.model(),
                self.ranged(),
                m.in_bounds(),
                m.has(x),
                m.has(y),
                a_nodes@ == m.nodes[x.at()],
                b_nodes@ == m.nodes[y.at()],
                forall|x: L, y: L| #[trigger] call_requires(*pred, (&x, &y)),
                path == old(visited)@,
                visited@ == path,
                p <= a_nodes@.len(),
                forall|u: int, v: int|
                    #![trigger m.nodes[x.at()][u], m.nodes[y.at()][v]]
                    0 <= u < p && 0 <= v < m.nodes[y.at()].len() ==> !deep_match(
                        m,
                        never_rejected(*pred),
                        path,
                        m.nodes[x.at()][u],
                        m.nodes[y.at()][v],
                    ),
            decreases a_nodes@.len() - p,
        {
            let mut q: usize = 0;
            while q < b_nodes.len()
                invariant
                    self.wf(),
                    m == self.model(),
                    self.ranged(),
                    m.in_bounds(),
                    m.has(x),
                    m.has(y),
                    a_nodes@ == m.nodes[x.at()],
                    b_nodes@ == m.nodes[y.at()],
                    forall|x: L, y: L| #[trigger] call_requires(*pred, (&x, &y)),
                    path == old(visited)@,
                    visited@ == path,
                    p < a_nodes@.len(),
                    q <= b_nodes@.len(),
                    forall|v: int|
                        #![trigger m.nodes[y.at()][v]]
                        0 <= v < q ==> !deep_match(
                            m,
                            never_rejected(*pred),
                            path,
                            m.nodes[x.at()][p as int],
                            m.nodes[y.at()][v],
                        ),
                decreases b_nodes@.len() - q,
            {
                assert(m.knows(m.nodes[x.at()][p as int]));
                assert(m.knows(m.nodes[y.at()][q as int]));
                if self.nodes_match_deep_inner(&a_nodes[p], &b_nodes[q], pred, visited) {
                    return true;
                }
                q = q + 1;
            }
            p = p + 1;
        }
        false
    }
}

/// Two e-nodes match at their own level, and the classes of their children are
/// pairwise in `pairs`.
pub open spec fn level_match<L: Language>(
    m: Model<L>,
    same: spec_fn(L, L) -> bool,
    pairs: Set<(Id, Id)>,
    a: L,
    b: L,
) -> bool {
    &&& same(a, b)
    &&& a.kids().len() == b.kids().len()
    &&& forall|i: int|
        #![trigger a.kids()[i]]
        #![trigger b.kids()[i]]
        0 <= i < a.kids().len() ==> pairs.contains(
            (m.roots[a.kids()[i].at()], m.roots[b.kids()[i].at()]),
        )
}

/// Of every two classes in `pairs`, some e-node of the one and some e-node of the
/// other match at their own level, with children in `pairs` again.
pub open spec fn all_levels_match<L: Language>(
    m: Model<L>,
    same: spec_fn(L, L) -> bool,
    pairs: Set<(Id, Id)>,
) -> bool {
    forall|x: Id, y: Id| #[trigger]
        pairs.contains((x, y)) ==> exists|p: int, q: int|
            #![trigger m.nodes[x.at()][p], m.nodes[y.at()][q]]
            0 <= p < m.nodes[x.at()].len() && 0 <= q < m.nodes[y.at()].len() && level_match(
                m,
                same,
                pairs,
                m.nodes[x.at()][p],
                m.nodes[y.at()][q],
            )
}

/// No two pairs have the same number.
proof fn lemma_pair_code(a: Id, b: Id, x: Id, y: Id)
    ensures
        pair_code(a, b) == pair_code(x, y) <==> a == x && b == y,
{
}

/// A longer path only makes it easier to match.
proof fn lemma_longer_path<L: Language>(
    m: Model<L>,
    same: spec_fn(L, L) -> bool,
    path: Set<u64>,
    more: Set<u64>,
    a: L,
    b: L,
)
    requires
        path.subset_of(more),
        deep_match(m, same, path, a, b),
    ensures
        deep_match(m, same, more, a, b),
    decreases unseen(path).len(),
{
    assert forall|i: int|
        #![trigger a.kids()[i]]
        #![trigger b.kids()[i]]
        0 <= i < a.kids().len() implies {
        let code = pair_code(m.root(a.kids()[i]), m.root(b.kids()[i]));
        more.contains(code) || classes_match(
            m,
            same,
            more.insert(code),
            m.root(a.kids()[i]),
            m.root(b.kids()[i]),
        )
    } by {
        let (x, y) = (m.root(a.kids()[i]), m.root(b.kids()[i]));
        let code = pair_code(x, y);
        if !more.contains(code) {
            assert(!path.contains(code));
            assert(classes_match(m, same, path.insert(code), x, y));
            lemma_unseen(path, code);
            let (p, q) = choose|p: int, q: int|
                #![trigger m.nodes[x.at()][p], m.nodes[y.at()][q]]
                0 <= p < m.nodes[x.at()].len() && 0 <= q < m.nodes[y.at()].len() && deep_match(
                    m,
                    same,
                    path.insert(code),
                    m.nodes[x.at()][p],
                    m.nodes[y.at()][q],
                );
            lemma_longer_path(
                m,
                same,
                path.insert(code),
                more.insert(code),
                m.nodes[x.at()][p],
                m.nodes[y.at()][q],
            );
        }
    }
}

proof fn lemma_longer_path_classes<L: Language>(
    m: Model<L>,
    same: spec_fn(L, L) -> bool,
    path: Set<u64>,
    more: Set<u64>,
    x: Id,
    y: Id,
)
    requires
        path.subset_of(more),
        classes_match(m, same, path, x, y),
    ensures
        classes_match(m, same, more, x, y),
{
    let (p, q) = choose|p: int, q: int|
        #![trigger m.nodes[x.at()][p], m.nodes[y.at()][q]]
        0 <= p < m.nodes[x.at()].len() && 0 <= q < m.nodes[y.at()].len() && deep_match(
            m,
            same,
            path,
            m.nodes[x.at()][p],
            m.nodes[y.at()][q],
        );
    lemma_longer_path(m, same, path, more, m.nodes[x.at()][p], m.nodes[y.at()][q]);
}

/// A pair of classes that matches need not be on the path.
proof fn lemma_shorter_path<L: Language>(
    m: Model<L>,
    same: spec_fn(L, L) -> bool,
    path: Set<u64>,
    x: Id,
    y: Id,
    a: L,
    b: L,
)
    requires
        classes_match(m, same, path.insert(pair_code(x, y)), x, y),
        deep_match(m, same, path.insert(pair_code(x, y)), a, b),
    ensures
        deep_match(m, same, path, a, b),
    decreases unseen(path).len(),
{
    let known = pair_code(x, y);
    let long = path.insert(known);
    if path.contains(known) {
        assert(long =~= path);
    } else {
        assert forall|i: int|
            #![trigger a.kids()[i]]
            #![trigger b.kids()[i]]
            0 <= i < a.kids().len() implies {
            let code = pair_code(m.root(a.kids()[i]), m.root(b.kids()[i]));
            path.contains(code) || classes_match(
                m,
                same,
                path.insert(code),
                m.root(a.kids()[i]),
                m.root(b.kids()[i]),
            )
        } by {
            let (u, v) = (m.root(a.kids()[i]), m.root(b.kids()[i]));
            let code = pair_code(u, v);
            lemma_pair_code(u, v, x, y);
            if !path.contains(code) && code != known {
                assert(!long.contains(code));
                assert(classes_match(m, same, long.insert(code), u, v));
                lemma_unseen(path, code);
                let (p, q) = choose|p: int, q: int|
                    #![trigger m.nodes[u.at()][p], m.nodes[v.at()][q]]
                    0 <= p < m.nodes[u.at()].len() && 0 <= q < m.nodes[v.at()].len() && deep_match(
                        m,
                        same,
                        long.insert(code),
                        m.nodes[u.at()][p],
                        m.nodes[v.at()][q],
                    );
                assert(long.insert(code) =~= path.insert(code).insert(known));
                lemma_longer_path_classes(m, same, long, long.insert(code), x, y);
                lemma_shorter_path(
                    m,
                    same,
                    path.insert(code),
                    x,
                    y,
                    m.nodes[u.at()][p],
                    m.nodes[v.at()][q],
                );
                assert(classes_match(m, same, path.insert(code), u, v));
            }
        }
    }
}

/// Nodes whose children are in such pairs match, whatever is on the path.
proof fn lemma_levels_suffice<L: Language>(
    m: Model<L>,
    same: spec_fn(L, L) -> bool,
    pairs: Set<(Id, Id)>,
    path: Set<u64>,
    a: L,
    b: L,
)
    requires
        all_levels_match(m, same, pairs),
        level_match(m, same, pairs, a, b),
    ensures
        deep_match(m, same, path, a, b),
    decreases unseen(path).len(),
{
    assert forall|i: int|
        #![trigger a.kids()[i]]
        #![trigger b.kids()[i]]
        0 <= i < a.kids().len() implies {
        let code = pair_code(m.root(a.kids()[i]), m.root(b.kids()[i]));
        path.contains(code) || classes_match(
            m,
            same,
            path.insert(code),
            m.root(a.kids()[i]),
            m.root(b.kids()[i]),
        )
    } by {
        let (x, y) = (m.root(a.kids()[i]), m.root(b.kids()[i]));
        let code = pair_code(x, y);
        if !path.contains(code) {
            lemma_unseen(path, code);
            assert(pairs.contains((x, y)));
            let (p, q) = choose|p: int, q: int|
                #![trigger m.nodes[x.at()][p], m.nodes[y.at()][q]]
                0 <= p < m.nodes[x.at()].len() && 0 <= q < m.nodes[y.at()].len() && level_match(
                    m,
                    same,
                    pairs,
                    m.nodes[x.at()][p],
                    m.nodes[y.at()][q],
                );
            lemma_levels_suffice(
                m,
                same,
                pairs,
                path.insert(code),
                m.nodes[x.at()][p],
                m.nodes[y.at()][q],
            );
        }
    }
}

/// Two nodes match in depth exactly if there is a set of pairs of classes, that
/// of their children among them at every position, such that in each of these
/// pairs some e-node of the one class and some e-node of the other match at
/// their own level, with child classes that are paired again. Cycles are no
/// obstacle.
pub proof fn law_deep_match<L: Language>(
    m: Model<L>,
    same: spec_fn(L, L) -> bool,
    a: L,
    b: L,
)
    ensures
        deep_match(m, same, Set::empty(), a, b) <==> exists|pairs: Set<(Id, Id)>| #[trigger]
            all_levels_match(m, same, pairs) && level_match(m, same, pairs, a, b),
{
    let none = Set::<u64>::empty();
    if deep_match(m, same, none, a, b) {
        let pairs = Set::new(
            |pair: (Id, Id)|
                classes_match(
                    m,
                    same,
                    none.insert(pair_code(pair.0, pair.1)),
                    pair.0,
                    pair.1,
                ),
        );
        assert forall|x: L, y: L| #[trigger] deep_match(m, same, none, x, y) implies level_match(
            m,
            same,
            pairs,
            x,
            y,
        ) by {
            assert forall|i: int|
                #![trigger x.kids()[i]]
                #![trigger y.kids()[i]]
                0 <= i < x.kids().len() implies pairs.contains(
                (m.roots[x.kids()[i].at()], m.roots[y.kids()[i].at()]),
            ) by {
                let code = pair_code(m.root(x.kids()[i]), m.root(y.kids()[i]));
                assert(!none.contains(code));
            }
        }
        assert forall|x: Id, y: Id| #[trigger] pairs.contains((x, y)) implies exists|
            p: int,
            q: int,
        |
            #![trigger m.nodes[x.at()][p], m.nodes[y.at()][q]]
            0 <= p < m.nodes[x.at()].len() && 0 <= q < m.nodes[y.at()].len() && level_match(
                m,
                same,
                pairs,
                m.nodes[x.at()][p],
                m.nodes[y.at()][q],
            ) by {
            let path = none.insert(pair_code(x, y));
            let (p, q) = choose|p: int, q: int|
                #![trigger m.nodes[x.at()][p], m.nodes[y.at()][q]]
                0 <= p < m.nodes[x.at()].len() && 0 <= q < m.nodes[y.at()].len() && deep_match(
                    m,
                    same,
                    path,
                    m.nodes[x.at()][p],
                    m.nodes[y.at()][q],
                );
            lemma_shorter_path(m, same, none, x, y, m.nodes[x.at()][p], m.nodes[y.at()][q]);
        }
        assert(all_levels_match(m, same, pairs));
    }
    if exists|pairs: Set<(Id, Id)>| #[trigger]
        all_levels_match(m, same, pairs) && level_match(m, same, pairs, a, b) {
        let pairs = choose|pairs: Set<(Id, Id)>| #[trigger]
            all_levels_match(m, same, pairs) && level_match(m, same, pairs, a, b);
        lemma_levels_suffice(m, same, pairs, none, a, b);
    }
}

/// What the predicate may answer is what counts: pairs that it may accept let
/// nodes match, pairs that it may reject keep them apart.
pub proof fn law_predicate_decides<L, F: Fn(&L, &L) -> bool>(pred: F, a: L, b: L)
    ensures
        accepted(pred)(a, b) <==> call_ensures(pred, (&a, &b), true),
        never_rejected(pred)(a, b) <==> !call_ensures(pred, (&a, &b), false),
{
}

} // verus!
