//! Explanations: why two terms are equal.

use super::forest::{
    connected, edge_ok, explains, explains_simply, explanation, is_chain, is_forest,
    lemma_chain_class, lemma_connected_iff_equal, lemma_explanation, lemma_pair_equal, pairs_equal,
    start_at, Chain, Edges, Reason,
};
use super::lang::{lemma_same_op, Id, Language};
use super::sums::{lemma_tally, tally};
use super::{row_edges, ClassData, EGraph, Justification};
use crate::text::{blanks, decimal, push_blanks, push_decimal};
use vstd::prelude::*;
use vstd::string::StringExecFns;

verus! {

/// An id that the search discovered: where it was reached from, and why.
struct Step {
    id: Id,
    from: usize,
    reason: Justification,
}

/// The steps that lead to the discovery at `k`.
spec fn path_to(found: Seq<Step>, k: int) -> Chain
    decreases k,
{
    if k <= 0 || found[k].from >= k {
        seq![start_at(found[0].id)]
    } else {
        path_to(found, found[k].from as int).push((found[k].id, found[k].reason@))
    }
}

/// Every discovery but the first follows an edge from an earlier one, and no
/// id was discovered twice.
#[verifier::opaque]
spec fn searched(edges: Edges, found: Seq<Step>, seen: Seq<bool>) -> bool {
    &&& found.len() > 0
    &&& seen.len() == edges.len()
    &&& forall|k: int|
        #![trigger found[k]]
        0 <= k < found.len() ==> found[k].id.at() < edges.len() && seen[found[k].id.at()]
    &&& forall|k: int|
        #![trigger found[k]]
        0 < k < found.len() ==> found[k].from < k && edges[found[found[k].from as int].id.at()].contains(
            (found[k].id, found[k].reason@),
        )
    &&& forall|k: int, l: int|
        #![trigger found[k], found[l]]
        0 <= k < l < found.len() ==> found[k].id != found[l].id
    &&& forall|i: int|
        #![trigger seen[i]]
        0 <= i < seen.len() && seen[i] ==> exists|k: int|
            0 <= k < found.len() && (#[trigger] found[k]).id.at() == i
}

/// The steps to a discovery are a simple chain of ids discovered before.
proof fn lemma_path(edges: Edges, found: Seq<Step>, seen: Seq<bool>, k: int)
    requires
        searched(edges, found, seen),
        0 <= k < found.len(),
    ensures
        explains_simply(edges, path_to(found, k), found[0].id, found[k].id),
        forall|x: int|
            #![trigger path_to(found, k)[x]]
            0 <= x < path_to(found, k).len() ==> exists|l: int|
                0 <= l <= k && (#[trigger] found[l]).id == path_to(found, k)[x].0,
    decreases k,
{
    reveal(searched);
    let path = path_to(found, k);
    if k == 0 {
        assert(path =~= seq![start_at(found[0].id)]);
        assert(path[0].0 == found[0].id);
    } else {
        let p = found[k].from as int;
        lemma_path(edges, found, seen, p);
        let less = path_to(found, p);
        let last = (found[k].id, found[k].reason@);
        assert(path == less.push(last));
        let n = less.len() as int;
        assert(found[p].id.at() < edges.len());
        assert forall|x: int| 0 <= x < path.len() implies (#[trigger] path[x]).0.at()
            < edges.len() by {
            if x < n {
                assert(path[x] == less[x]);
            }
        }
        assert forall|x: int| 0 < x < path.len() implies edges[path[x - 1].0.at()].contains(
            #[trigger] path[x],
        ) by {
            if x < n {
                assert(path[x] == less[x] && path[x - 1] == less[x - 1]);
            } else {
                assert(path[x - 1] == less.last());
            }
        }
        assert forall|x: int|
            #![trigger path[x]]
            0 <= x < path.len() implies exists|l: int|
            0 <= l <= k && (#[trigger] found[l]).id == path[x].0 by {
            if x < n {
                assert(path[x] == less[x]);
                let l = choose|l: int| 0 <= l <= p && (#[trigger] found[l]).id == less[x].0;
                assert(found[l].id == path[x].0);
            } else {
                assert(found[k].id == path[x].0);
            }
        }
        assert forall|x: int, y: int|
            #![trigger path[x], path[y]]
            0 <= x < y < path.len() implies path[x].0 != path[y].0 by {
            if y < n {
                assert(less[x].0 != less[y].0);
            } else {
                assert(path[x] == less[x]);
                let l = choose|l: int| 0 <= l <= p && (#[trigger] found[l]).id == less[x].0;
                assert(found[l].id != found[k].id);
            }
        }
        assert(path[0] == less[0]);
    }
}

/// How many ids were not discovered yet.
spec fn unseen(seen: Seq<bool>) -> nat {
    tally(
        |i: int|
            if seen[i] {
                0nat
            } else {
                1nat
            },
        seen.len(),
    )
}

proof fn lemma_unseen(seen: Seq<bool>, i: int)
    requires
        0 <= i < seen.len(),
        !seen[i],
    ensures
        unseen(seen.update(i, true)) < unseen(seen),
{
    let next = seen.update(i, true);
    let count = |s: Seq<bool>|
        |i: int|
            if s[i] {
                0nat
            } else {
                1nat
            };
    assert(unseen(seen) == tally(count(seen), seen.len()));
    assert(unseen(next) == tally(count(next), seen.len()));
    lemma_tally(count(seen), count(next), i, seen.len());
}

/// A new discovery.
proof fn lemma_discovered(
    edges: Edges,
    found: Seq<Step>,
    seen: Seq<bool>,
    head: int,
    step: Step,
)
    requires
        searched(edges, found, seen),
        0 <= head < found.len(),
        step.from == head,
        edges[found[head].id.at()].contains((step.id, step.reason@)),
        step.id.at() < edges.len(),
        !seen[step.id.at()],
    ensures
        searched(edges, found.push(step), seen.update(step.id.at(), true)),
        unseen(seen.update(step.id.at(), true)) < unseen(seen),
{
    reveal(searched);
    let (more, now) = (found.push(step), seen.update(step.id.at(), true));
    let n = found.len() as int;
    lemma_unseen(seen, step.id.at());
    assert forall|k: int| #![trigger more[k]] 0 <= k < more.len() implies more[k].id.at()
        < edges.len() && now[more[k].id.at()] by {
        if k < n {
            assert(more[k] == found[k]);
        }
    }
    assert forall|k: int| #![trigger more[k]] 0 < k < more.len() implies more[k].from < k
        && edges[more[more[k].from as int].id.at()].contains((more[k].id, more[k].reason@)) by {
        if k < n {
            assert(more[k] == found[k]);
            assert(more[more[k].from as int] == found[found[k].from as int]);
        } else {
            assert(more[head] == found[head]);
        }
    }
    assert forall|k: int, l: int|
        #![trigger more[k], more[l]]
        0 <= k < l < more.len() implies more[k].id != more[l].id by {
        assert(more[k] == found[k]);
        if l < n {
            assert(more[l] == found[l]);
        } else {
            assert(seen[found[k].id.at()]);
        }
    }
    assert forall|i: int| #![trigger now[i]] 0 <= i < now.len() && now[i] implies exists|k: int|
        0 <= k < more.len() && (#[trigger] more[k]).id.at() == i by {
        if i == step.id.at() {
            assert(more[n].id.at() == i);
        } else {
            assert(seen[i]);
            let k = choose|k: int| 0 <= k < found.len() && (#[trigger] found[k]).id.at() == i;
            assert(more[k].id.at() == i);
        }
    }
}

/// Everything that an edge leads to from the first `n` discoveries was
/// discovered.
#[verifier::opaque]
spec fn explored(edges: Edges, found: Seq<Step>, seen: Seq<bool>, n: int) -> bool {
    forall|k: int, e: int|
        #![trigger edges[found[k].id.at()][e]]
        0 <= k < n && 0 <= e < edges[found[k].id.at()].len()
            ==> edges[found[k].id.at()][e].0.at() < seen.len()
            && seen[edges[found[k].id.at()][e].0.at()]
}

/// What holds of the search at every time.
proof fn lemma_searched(edges: Edges, found: Seq<Step>, seen: Seq<bool>, k: int)
    requires
        searched(edges, found, seen),
        0 <= k < found.len(),
    ensures
        seen.len() == edges.len(),
        found.len() > 0,
        found[k].id.at() < edges.len(),
        seen[found[k].id.at()],
        k > 0 ==> found[k].from < k,
{
    reveal(searched);
}

/// The search starts at `a`.
proof fn lemma_search_starts(edges: Edges, found: Seq<Step>, seen: Seq<bool>)
    requires
        found.len() == 1,
        seen.len() == edges.len(),
        found[0].id.at() < seen.len(),
        forall|i: int| #![trigger seen[i]] 0 <= i < seen.len() ==> seen[i] == (i == found[0].id.at()),
    ensures
        searched(edges, found, seen),
        explored(edges, found, seen, 0),
{
    reveal(searched);
    reveal(explored);
    assert forall|i: int| #![trigger seen[i]] 0 <= i < seen.len() && seen[i] implies exists|k: int|
        0 <= k < found.len() && (#[trigger] found[k]).id.at() == i by {
        assert(found[0].id.at() == i);
    }
}

/// One more discovery was explored.
proof fn lemma_explored_next(edges: Edges, found: Seq<Step>, seen: Seq<bool>, n: int)
    requires
        explored(edges, found, seen, n),
        forall|e: int|
            #![trigger edges[found[n].id.at()][e]]
            0 <= e < edges[found[n].id.at()].len() ==> edges[found[n].id.at()][e].0.at()
                < seen.len() && seen[edges[found[n].id.at()][e].0.at()],
    ensures
        explored(edges, found, seen, n + 1),
{
    reveal(explored);
}

/// Once all discoveries are explored, every chain stays among them.
proof fn lemma_chain_seen(
    edges: Edges,
    found: Seq<Step>,
    seen: Seq<bool>,
    chain: Chain,
    i: int,
)
    requires
        searched(edges, found, seen),
        explored(edges, found, seen, found.len() as int),
        is_chain(edges, chain),
        chain[0].0 == found[0].id,
        0 <= i < chain.len(),
    ensures
        seen[chain[i].0.at()],
    decreases i,
{
    reveal(searched);
    reveal(explored);
    if i == 0 {
        assert(seen[found[0].id.at()]);
    } else {
        lemma_chain_seen(edges, found, seen, chain, i - 1);
        let x = chain[i - 1].0.at();
        assert(chain[i - 1].0.at() < edges.len());
        assert(seen[x]);
        let k = choose|k: int| 0 <= k < found.len() && (#[trigger] found[k]).id.at() == x;
        assert(edges[x].contains(chain[i]));
        let e = choose|e: int| 0 <= e < edges[x].len() && edges[x][e] == chain[i];
        assert(edges[found[k].id.at()][e] == chain[i]);
    }
}

/// What `explain` returns: the chain of steps between two equal ids.
pub open spec fn proof_of(roots: Seq<Id>, edges: Edges, a: Id, b: Id) -> Option<Chain> {
    if a == b {
        Some(seq![start_at(a)])
    } else if a.at() < roots.len() && b.at() < roots.len() && roots[a.at()] == roots[b.at()] {
        Some(explanation(edges, a, b))
    } else {
        None
    }
}

impl<L: Language, N: ClassData> EGraph<L, N> {
    /// Why the ids `a` and `b` are equal, if they are.
    pub open spec fn why(&self, a: Id, b: Id) -> Option<Chain> {
        proof_of(self.model().roots, self.edges(), a, b)
    }

    /// Find a justification path proving that the terms at `a` and `b` are
    /// equal, if one exists. Returns the chain of ids visited together with the
    /// [`Justification`] for each step (the first step's reason is an empty
    /// rule).
    ///
    /// This is a breadth-first search over the proof forest, which records the
    /// exact ids joined by every `merge`, so it yields a shortest proof.
    pub fn explain(&self, a: Id, b: Id) -> (found: Option<Vec<(Id, Justification)>>)
        requires
            self.wf(),
        ensures
            self.why(a, b) == match found {
                Some(chain) => Some(row_edges(chain@)),
                None => None,
            },
            found is Some <==> self.why(a, b) is Some,
            found is Some ==> found->0@.len() == self.why(a, b)->0.len() && forall|i: int|
                #![trigger found->0@[i]]
                0 <= i < found->0@.len() ==> self.why(a, b)->0[i] == (
                    found->0@[i].0,
                    found->0@[i].1@,
                ),
    {
        proof {
            self.lemma_safe();
            reveal_strlit("");
            assert(""@ =~= Seq::empty());
        }
        let ghost roots = self.model().roots;
        let ghost edges = self.edges();
        if a == b {
            let mut chain: Vec<(Id, Justification)> = Vec::new();
            chain.push((a, Justification::Rule("")));
            assert(row_edges(chain@) =~= seq![start_at(a)]);
            return Some(chain);
        }
        let n = self.explain_edges.len();
        if (a.0 as usize) >= n || (b.0 as usize) >= n {
            return None;
        }
        // Breadth-first search, remembering each id's predecessor and reason.
        let mut seen: Vec<bool> = Vec::new();
        while seen.len() < n
            invariant
                seen@.len() <= n,
                forall|i: int| #![trigger seen@[i]] 0 <= i < seen@.len() ==> !seen@[i],
            decreases n - seen@.len(),
        {
            seen.push(false);
        }
        let mut found: Vec<Step> = Vec::new();
        found.push(Step { id: a, from: 0, reason: Justification::Rule("") });
        seen.set(a.0 as usize, true);
        proof {
            lemma_search_starts(edges, found@, seen@);
        }
        let mut head: usize = 0;
        while head < found.len()
            invariant
                self.wf(),
                edges == self.edges(),
                roots == self.model().roots,
                is_forest(roots, edges),
                edges.len() == n == roots.len(),
                self.explain_edges@.len() == n,
                a.at() < n,
                b.at() < n,
                a != b,
                head <= found@.len(),
                searched(edges, found@, seen@),
                found@[0].id == a,
                !seen@[b.at()],
                explored(edges, found@, seen@, head as int),
                seen@.len() == n,
            decreases unseen(seen@), found@.len() - head,
        {
            let cur = found[head].id;
            proof {
                lemma_searched(edges, found@, seen@, head as int);
            }
            let ghost (found0, seen0) = (found@, seen@);
            let row = &self.explain_edges[cur.0 as usize];
            assert(edges[cur.at()] == row_edges(row@));
            let mut e: usize = 0;
            while e < row.len()
                invariant
                    self.wf(),
                    edges == self.edges(),
                    roots == self.model().roots,
                    is_forest(roots, edges),
                    edges.len() == n == roots.len(),
                    a.at() < n,
                    b.at() < n,
                    a != b,
                    head < found@.len(),
                    found@[head as int].id == cur,
                    cur.at() < n,
                    edges[cur.at()] == row_edges(row@),
                    e <= row@.len(),
                    searched(edges, found@, seen@),
                    found@[0].id == a,
                    !seen@[b.at()],
                    explored(edges, found@, seen@, head as int),
                    seen@.len() == n,
                    forall|x: int|
                        #![trigger edges[cur.at()][x]]
                        0 <= x < e ==> edges[cur.at()][x].0.at() < n
                            && seen@[edges[cur.at()][x].0.at()],
                    unseen(seen@) < unseen(seen0) || (unseen(seen@) == unseen(seen0) && found@
                        == found0),
                decreases row@.len() - e,
            {
                let next = row[e].0;
                let reason = row[e].1.clone();
                proof {
                    reveal(is_forest);
                    assert(edges[cur.at()][e as int] == (next, reason@));
                    assert(edge_ok(roots, cur.at(), edges[cur.at()][e as int]));
                }
                if !seen[next.0 as usize] {
                    let ghost (f, s) = (found@, seen@);
                    let step = Step { id: next, from: head, reason };
                    proof {
                        assert(edges[f[head as int].id.at()].contains((next, reason@)));
                        lemma_discovered(edges, f, s, head as int, step);
                        lemma_explored_more(edges, f, s, head as int, step);
                    }
                    found.push(step);
                    seen.set(next.0 as usize, true);
                    if next == b {
                        let k = found.len() - 1;
                        proof {
                            lemma_path(edges, found@, seen@, k as int);
                            lemma_chain_same_class(roots, edges, found@, seen@, k as int);
                            lemma_explanation(roots, edges, a, b);
                        }
                        return Some(Self::trace(&found, k, Ghost(edges), Ghost(seen@)));
                    }
                }
                e = e + 1;
            }
            proof {
                lemma_explored_next(edges, found@, seen@, head as int);
            }
            head = head + 1;
        }
        proof {
            if roots[a.at()] == roots[b.at()] {
                lemma_connected_iff_equal(roots, edges, a, b);
                let chain = choose|chain: Chain| #[trigger] explains(edges, chain, a, b);
                lemma_chain_seen(edges, found@, seen@, chain, chain.len() - 1);
            }
        }
        None
    }

    /// The path from the first discovery to the one at `k`.
    fn trace(
        found: &Vec<Step>,
        k: usize,
        Ghost(edges): Ghost<Edges>,
        Ghost(seen): Ghost<Seq<bool>>,
    ) -> (chain: Vec<(Id, Justification)>)
        requires
            searched(edges, found@, seen),
            k < found@.len(),
        ensures
            row_edges(chain@) == path_to(found@, k as int),
        decreases k,
    {
        proof {
            reveal_strlit("");
            assert(""@ =~= Seq::empty());
            lemma_searched(edges, found@, seen, k as int);
        }
        if k == 0 {
            let mut chain: Vec<(Id, Justification)> = Vec::new();
            chain.push((found[0].id, Justification::Rule("")));
            assert(row_edges(chain@) =~= seq![start_at(found@[0].id)]);
            chain
        } else {
            let mut chain = Self::trace(found, found[k].from, Ghost(edges), Ghost(seen));
            let ghost before = chain@;
            chain.push((found[k].id, found[k].reason.clone()));
            assert(row_edges(chain@) =~= row_edges(before).push(
                (found@[k as int].id, found@[k as int].reason@),
            ));
            chain
        }
    }
}

/// A discovery keeps what was explored.
proof fn lemma_explored_more(
    edges: Edges,
    found: Seq<Step>,
    seen: Seq<bool>,
    n: int,
    step: Step,
)
    requires
        n <= found.len(),
        explored(edges, found, seen, n),
        step.id.at() < seen.len(),
    ensures
        explored(edges, found.push(step), seen.update(step.id.at(), true), n),
{
    reveal(explored);
    let (more, now) = (found.push(step), seen.update(step.id.at(), true));
    assert forall|k: int, e: int|
        #![trigger edges[more[k].id.at()][e]]
        0 <= k < n && 0 <= e < edges[more[k].id.at()].len() implies edges[more[k].id.at()][e].0.at()
        < now.len() && now[edges[more[k].id.at()][e].0.at()] by {
        assert(more[k] == found[k]);
        assert(seen[edges[found[k].id.at()][e].0.at()]);
    }
}

/// A discovery is equal to the first one.
proof fn lemma_chain_same_class(
    roots: Seq<Id>,
    edges: Edges,
    found: Seq<Step>,
    seen: Seq<bool>,
    k: int,
)
    requires
        is_forest(roots, edges),
        searched(edges, found, seen),
        0 <= k < found.len(),
    ensures
        roots[found[k].id.at()] == roots[found[0].id.at()],
{
    reveal(is_forest);
    lemma_path(edges, found, seen, k);
    let chain = path_to(found, k);
    lemma_chain_class(roots, edges, chain, chain.len() - 1);
}

/// What explanations are written from: the canonical ids, the proof forest and
/// the frozen terms.
#[verifier::ext_equal]
pub struct Facts {
    pub roots: Seq<Id>,
    pub edges: Edges,
    pub terms: Seq<Seq<char>>,
}

impl Facts {
    /// The frozen term of `id`, a question mark for an unknown id.
    pub open spec fn term(self, id: Id) -> Seq<char> {
        if id.at() < self.terms.len() {
            self.terms[id.at()]
        } else {
            "?"@
        }
    }

    /// The line that starts an explanation at `id`.
    pub open spec fn first_line(self, depth: nat, id: Id) -> Seq<char> {
        blanks(depth) + self.term(id) + "\n"@
    }

    /// The line for a step to `id` by `name`.
    pub open spec fn step_line(self, depth: nat, id: Id, name: Seq<char>) -> Seq<char> {
        blanks(depth) + " = "@ + self.term(id) + " [by "@ + name + "]\n"@
    }

    /// The line above the sub-proof of a pair of children.
    pub open spec fn where_line(self, depth: nat, pair: (Id, Id)) -> Seq<char> {
        blanks(depth) + " where "@ + self.term(pair.0) + " = "@ + self.term(pair.1) + ":\n"@
    }

    /// The explanation for `a` and `b`, empty if they are not equal.
    pub open spec fn story(self, a: Id, b: Id, depth: nat) -> Seq<char>
        decreases 10 - depth, 2int, 0nat,
    {
        match proof_of(self.roots, self.edges, a, b) {
            Some(chain) => self.chain_story(chain, depth, chain.len()),
            None => Seq::empty(),
        }
    }

    /// The lines for the first `n` entries of a chain.
    pub open spec fn chain_story(self, chain: Chain, depth: nat, n: nat) -> Seq<char>
        decreases 10 - depth, 1int, n,
    {
        if n == 0 {
            Seq::empty()
        } else {
            let rest = self.chain_story(chain, depth, (n - 1) as nat);
            let (id, reason) = chain[n - 1];
            if n == 1 {
                rest + self.first_line(depth, id)
            } else {
                match reason {
                    Reason::Rule(name) => rest + self.step_line(depth, id, name),
                    Reason::Congruence(pairs) => rest + self.step_line(depth, id, "congruence"@)
                        + self.pairs_story(pairs, depth, pairs.len()),
                }
            }
        }
    }

    /// The sub-proofs for the first `n` pairs of children, which are left out
    /// once the recursion is deep.
    pub open spec fn pairs_story(self, pairs: Seq<(Id, Id)>, depth: nat, n: nat) -> Seq<char>
        decreases 10 - depth, 0int, n,
    {
        if n == 0 || depth >= 4 {
            Seq::empty()
        } else {
            self.pairs_story(pairs, depth, (n - 1) as nat) + self.where_line(depth, pairs[n - 1])
                + self.story(pairs[n - 1].0, pairs[n - 1].1, depth + 3)
        }
    }
}

impl<L: Language, N: ClassData> EGraph<L, N> {
    /// What explanations of this graph are written from.
    pub open spec fn facts(&self) -> Facts {
        Facts { roots: self.model().roots, edges: self.edges(), terms: self.terms() }
    }

    /// Write the frozen term of `id`.
    fn push_term(&self, out: &mut String, id: Id)
        ensures
            final(out)@ == old(out)@ + self.facts().term(id),
    {
        if (id.0 as usize) < self.term_snapshot.len() {
            out.append(self.term_snapshot[id.0 as usize].as_str());
        } else {
            out.append("?");
        }
    }

    /// Produce a human-readable, rule-by-rule proof that the terms at `a` and
    /// `b` are equal. Each line shows the frozen term and the rule that rewrote
    /// the previous line into it. Congruence steps are expanded recursively,
    /// with the sub-proof for each differing child pair indented underneath.
    /// Returns `None` if the two are not known to be equal.
    pub fn explain_equivalence(&self, a: Id, b: Id) -> (text: Option<String>)
        requires
            self.wf(),
        ensures
            match text {
                Some(lines) => self.why(a, b) is Some && lines@ == self.facts().story(a, b, 0),
                None => self.why(a, b) is None,
            },
    {
        let mut out = String::new();
        if self.write_explanation(a, b, 0, &mut out) {
            assert(out@ =~= self.facts().story(a, b, 0));
            Some(out)
        } else {
            None
        }
    }

    /// Recursive helper for `explain_equivalence`. `depth` bounds recursion.
    fn write_explanation(&self, a: Id, b: Id, depth: usize, out: &mut String) -> (equal: bool)
        requires
            self.wf(),
            depth <= 6,
        ensures
            equal == (self.why(a, b) is Some),
            final(out)@ == old(out)@ + self.facts().story(a, b, depth as nat),
        decreases 10 - depth, 1int,
    {
        let ghost facts = self.facts();
        let path = match self.explain(a, b) {
            Some(path) => path,
            None => {
                assert(out@ =~= old(out)@ + facts.story(a, b, depth as nat));
                return false;
            },
        };
        let ghost chain = row_edges(path@);
        let mut i: usize = 0;
        assert(out@ =~= old(out)@ + facts.chain_story(chain, depth as nat, 0));
        while i < path.len()
            invariant
                self.wf(),
                facts == self.facts(),
                depth <= 6,
                chain == row_edges(path@),
                i <= path@.len(),
                out@ == old(out)@ + facts.chain_story(chain, depth as nat, i as nat),
            decreases path@.len() - i,
        {
            let ghost before = out@;
            let id = path[i].0;
            assert(chain[i as int] == (path@[i as int].0, path@[i as int].1@));
            if i == 0 {
                push_blanks(out, depth);
                self.push_term(out, id);
                out.append("\n");
                assert(out@ =~= before + facts.first_line(depth as nat, id));
            } else {
                match &path[i].1 {
                    Justification::Rule(name) => {
                        self.push_step(out, depth, id, name);
                    },
                    Justification::Congruence(pairs) => {
                        self.push_step(out, depth, id, "congruence");
                        self.push_pairs(out, depth, pairs);
                    },
                }
            }
            i = i + 1;
            assert(out@ =~= old(out)@ + facts.chain_story(chain, depth as nat, i as nat));
        }
        true
    }

    /// Write the line for a step.
    fn push_step(&self, out: &mut String, depth: usize, id: Id, name: &str)
        ensures
            final(out)@ == old(out)@ + self.facts().step_line(depth as nat, id, name@),
    {
        push_blanks(out, depth);
        out.append(" = ");
        self.push_term(out, id);
        out.append(" [by ");
        out.append(name);
        out.append("]\n");
        assert(out@ =~= old(out)@ + self.facts().step_line(depth as nat, id, name@));
    }

    /// Justify a congruence by proving each differing child pair, unless the
    /// recursion is deep already.
    fn push_pairs(&self, out: &mut String, depth: usize, pairs: &Vec<(Id, Id)>)
        requires
            self.wf(),
            depth <= 6,
        ensures
            final(out)@ == old(out)@ + self.facts().pairs_story(
                pairs@,
                depth as nat,
                pairs@.len(),
            ),
        decreases 10 - depth, 0int,
    {
        let ghost facts = self.facts();
        if depth >= 4 {
            assert(out@ =~= old(out)@ + facts.pairs_story(pairs@, depth as nat, pairs@.len()));
            return;
        }
        let mut i: usize = 0;
        assert(out@ =~= old(out)@ + facts.pairs_story(pairs@, depth as nat, 0));
        while i < pairs.len()
            invariant
                self.wf(),
                facts == self.facts(),
                depth < 4,
                i <= pairs@.len(),
                out@ == old(out)@ + facts.pairs_story(pairs@, depth as nat, i as nat),
            decreases pairs@.len() - i,
        {
            let ghost before = out@;
            let (co, cc) = pairs[i];
            push_blanks(out, depth);
            out.append(" where ");
            self.push_term(out, co);
            out.append(" = ");
            self.push_term(out, cc);
            out.append(":\n");
            assert(out@ =~= before + facts.where_line(depth as nat, pairs@[i as int]));
            let ghost titled = out@;
            self.write_explanation(co, cc, depth + 3, out);
            i = i + 1;
            assert(out@ =~= old(out)@ + facts.pairs_story(pairs@, depth as nat, i as nat));
        }
    }
}

/// An id as messages show it.
pub open spec fn id_text(id: Id) -> Seq<char> {
    "Id("@ + decimal(id.0 as nat) + ")"@
}

/// The message for ids that nothing connects.
pub open spec fn no_proof_text(a: Id, b: Id) -> Seq<char> {
    "no proof connecting "@ + id_text(a) + " and "@ + id_text(b)
}

/// The message for a proof that is nested too deeply.
pub open spec fn too_deep_text() -> Seq<char> {
    "proof exceeded maximum recursion depth"@
}

impl Facts {
    /// The proof for `a` and `b`, found at nesting `depth`, holds: the two are
    /// connected, and the proofs for all pairs of children that its congruence
    /// steps rest on hold, none of them nested more than 64 deep.
    pub open spec fn checks(self, a: Id, b: Id, depth: nat) -> bool
        decreases 66 - depth, 2int, 0nat,
    {
        if depth > 64 {
            false
        } else if a == b {
            true
        } else {
            match proof_of(self.roots, self.edges, a, b) {
                Some(chain) => self.chain_checks(chain, depth, chain.len()),
                None => false,
            }
        }
    }

    /// The congruence steps among the first `n` entries of a chain hold.
    pub open spec fn chain_checks(self, chain: Chain, depth: nat, n: nat) -> bool
        decreases 66 - depth, 1int, n,
    {
        if n <= 1 {
            true
        } else {
            self.chain_checks(chain, depth, (n - 1) as nat) && match chain[n - 1].1 {
                Reason::Rule(name) => true,
                Reason::Congruence(pairs) => self.pairs_check(pairs, depth, pairs.len()),
            }
        }
    }

    /// The proofs for the first `n` of `pairs` hold.
    pub open spec fn pairs_check(self, pairs: Seq<(Id, Id)>, depth: nat, n: nat) -> bool
        decreases 66 - depth, 0int, n,
    {
        if n == 0 {
            true
        } else if depth > 64 {
            false
        } else {
            self.pairs_check(pairs, depth, (n - 1) as nat) && self.checks(
                pairs[n - 1].0,
                pairs[n - 1].1,
                depth + 1,
            )
        }
    }
}

/// Write an id as messages show it.
fn push_id(out: &mut String, id: Id)
    ensures
        final(out)@ == old(out)@ + id_text(id),
{
    out.append("Id(");
    push_decimal(out, id.0 as u64);
    out.append(")");
    assert(out@ =~= old(out)@ + id_text(id));
}

/// What is said of a step between two ids.
pub open spec fn step_text(start: Seq<char>, from: Id, to: Id, end: Seq<char>) -> Seq<char> {
    start + id_text(from) + " -> "@ + id_text(to) + end
}

/// A message about a step between two ids.
fn step_message(start: &str, from: Id, to: Id, end: &str) -> (text: String)
    ensures
        text@ == step_text(start@, from, to, end@),
{
    let mut out: String = start.to_owned();
    push_id(&mut out, from);
    out.append(" -> ");
    push_id(&mut out, to);
    out.append(end);
    out
}

impl<L: Language, N: ClassData> EGraph<L, N> {
    /// Whether an edge from `from` to `to` is labelled with the rule `name`.
    fn has_rule_edge(&self, from: Id, to: Id, name: &str) -> (yes: bool)
        requires
            from.at() < self.edges().len(),
        ensures
            yes == self.edges()[from.at()].contains((to, Reason::Rule(name@))),
    {
        let ghost row = self.edges()[from.at()];
        let wanted: String = name.to_owned();
        let list = &self.explain_edges[from.0 as usize];
        assert(row == row_edges(list@));
        let mut e: usize = 0;
        while e < list.len()
            invariant
                e <= list@.len(),
                row == row_edges(list@),
                row == self.edges()[from.at()],
                wanted@ == name@,
                forall|x: int|
                    #![trigger row[x]]
                    0 <= x < e ==> row[x] != (to, Reason::Rule(name@)),
            decreases list@.len() - e,
        {
            assert(row[e as int] == (list@[e as int].0, list@[e as int].1@));
            if list[e].0 == to {
                if let Justification::Rule(other) = &list[e].1 {
                    let label: String = (*other).to_owned();
                    if label == wanted {
                        assert(row[e as int] == (to, Reason::Rule(name@)));
                        return true;
                    }
                }
            }
            e = e + 1;
        }
        false
    }

    /// Independently verify that the terms at `a` and `b` really are equal, by
    /// replaying a proof rather than trusting the union-find. Returns `Ok(())`
    /// if a sound proof exists, or `Err(reason)` describing the first failure.
    ///
    /// Each step must be one of: reflexivity (identical ids), transitivity
    /// (consecutive steps whose endpoints line up), a rule (a recorded edge
    /// between the two ids), or congruence (the two nodes share operator and
    /// arity, and every differing child pair is itself provably equal).
    /// Congruence steps may nest up to 64 deep; a proof that goes deeper is
    /// refused.
    pub fn check_proof(&self, a: Id, b: Id) -> (result: Result<(), String>)
        requires
            self.wf(),
        ensures
            match result {
                Ok(_) => self.facts().checks(a, b, 0),
                Err(text) => {
                    &&& !self.facts().checks(a, b, 0)
                    &&& text@ == if self.why(a, b) is None {
                        no_proof_text(a, b)
                    } else {
                        too_deep_text()
                    }
                },
            },
    {
        self.check_proof_inner(a, b, 0)
    }

    fn check_proof_inner(&self, a: Id, b: Id, depth: usize) -> (result: Result<(), String>)
        requires
            self.wf(),
            depth <= 65,
        ensures
            match result {
                Ok(_) => self.facts().checks(a, b, depth as nat),
                Err(text) => {
                    &&& !self.facts().checks(a, b, depth as nat)
                    &&& text@ == if depth <= 64 && self.why(a, b) is None {
                        no_proof_text(a, b)
                    } else {
                        too_deep_text()
                    }
                },
            },
        decreases 66 - depth, 1int,
    {
        if depth > 64 {
            return Err("proof exceeded maximum recursion depth".to_owned());
        }
        if a == b {
            return Ok(());  // reflexivity
        }
        let path = match self.explain(a, b) {
            Some(path) => path,
            None => {
                let mut text: String = "no proof connecting ".to_owned();
                push_id(&mut text, a);
                text.append(" and ");
                push_id(&mut text, b);
                return Err(text);
            },
        };
        let ghost facts = self.facts();
        let ghost chain = row_edges(path@);
        proof {
            self.lemma_safe();
            lemma_explanation(facts.roots, facts.edges, a, b);
            assert(explains_simply(facts.edges, chain, a, b));
            assert(chain[0] == (path@[0].0, path@[0].1@));
            let last = path@.len() - 1;
            assert(chain[last] == (path@[last].0, path@[last].1@));
        }
        // Transitivity: the chain starts at `a`, ends at `b`, and each
        // consecutive pair is a valid single step.
        if path[0].0 != a {
            let mut text: String = "proof does not start at ".to_owned();
            push_id(&mut text, a);
            return Err(text);
        }
        if path[path.len() - 1].0 != b {
            let mut text: String = "proof does not end at ".to_owned();
            push_id(&mut text, b);
            return Err(text);
        }
        let mut i: usize = 1;
        while i < path.len()
            invariant
                self.wf(),
                facts == self.facts(),
                depth <= 64,
                a != b,
                self.why(a, b) == Some(chain),
                chain == row_edges(path@),
                is_chain(facts.edges, chain),
                1 <= i <= path@.len(),
                facts.chain_checks(chain, depth as nat, i as nat),
            decreases path@.len() - i,
        {
            let (from, to) = (path[i - 1].0, path[i].0);
            proof {
                assert(chain[i as int] == (path@[i as int].0, path@[i as int].1@));
                assert(chain[i - 1] == (path@[i - 1].0, path@[i - 1].1@));
                assert(facts.edges[chain[i - 1].0.at()].contains(chain[i as int]));
                assert(chain[i - 1].0.at() < facts.edges.len());
                assert(chain[i as int].0.at() < facts.edges.len());
                self.lemma_safe();
            }
            match &path[i].1 {
                Justification::Rule(name) => {
                    // A rule step must correspond to a real recorded edge.
                    if !self.has_rule_edge(from, to, name) {
                        let mut text = step_message("step ", from, to, " claims rule '");
                        text.append(name);
                        text.append("' but no such edge exists");
                        return Err(text);
                    }
                },
                Justification::Congruence(pairs) => {
                    // The endpoints must be applications of the same operator
                    // with equal arity.
                    proof {
                        lemma_step_equal(facts.roots, facts.edges, from, chain[i as int]);
                        let own = self.model().class(from)[0];
                        assert(own == self.model().class(to)[0]);
                        lemma_same_op(&own, &own, &own);
                    }
                    if let Err(text) = self.same_operator(from, to) {
                        return Err(text);
                    }
                    // Each differing child pair must itself be provable.
                    if let Err(text) = self.check_pairs(pairs, depth) {
                        proof {
                            lemma_chain_fails(facts, chain, depth as nat, (i + 1) as nat, chain.len());
                        }
                        return Err(text);
                    }
                },
            }
            i = i + 1;
        }
        Ok(())
    }

    /// Whether the first e-nodes of the classes of two ids share operator and
    /// arity.
    fn same_operator(&self, from: Id, to: Id) -> (result: Result<(), String>)
        requires
            self.wf(),
            self.model().has(from),
            self.model().has(to),
        ensures
            ({
                let (own, other) = (self.model().class(from)[0], self.model().class(to)[0]);
                match result {
                    Ok(_) => own.same_op(&other) && own.kids().len() == other.kids().len(),
                    Err(text) => if !own.same_op(&other) {
                        text@ == step_text(
                            "congruence step "@,
                            from,
                            to,
                            " joins different operators"@,
                        )
                    } else {
                        &&& own.kids().len() != other.kids().len()
                        &&& text@ == step_text(
                            "congruence step "@,
                            from,
                            to,
                            " has mismatched arity"@,
                        )
                    },
                }
            }),
    {
        proof {
            self.lemma_safe();
        }
        match (self.canonical_node(from), self.canonical_node(to)) {
            (Some(fnode), Some(tnode)) => {
                if !fnode.matches(&tnode) {
                    return Err(
                        step_message("congruence step ", from, to, " joins different operators"),
                    );
                }
                if fnode.children().len() != tnode.children().len() {
                    return Err(
                        step_message("congruence step ", from, to, " has mismatched arity"),
                    );
                }
                Ok(())
            },
            _ => Err(
                step_message("congruence step ", from, to, " lacks concrete nodes to compare"),
            ),
        }
    }

    /// Check the proofs for pairs of equal children.
    fn check_pairs(&self, pairs: &Vec<(Id, Id)>, depth: usize) -> (result: Result<(), String>)
        requires
            self.wf(),
            depth <= 64,
            pairs_equal(self.model().roots, Reason::Congruence(pairs@)),
        ensures
            match result {
                Ok(_) => self.facts().pairs_check(pairs@, depth as nat, pairs@.len()),
                Err(text) => {
                    &&& !self.facts().pairs_check(pairs@, depth as nat, pairs@.len())
                    &&& text@ == too_deep_text()
                },
            },
        decreases 66 - depth, 0int,
    {
        let ghost facts = self.facts();
        let mut i: usize = 0;
        while i < pairs.len()
            invariant
                self.wf(),
                facts == self.facts(),
                depth <= 64,
                pairs_equal(self.model().roots, Reason::Congruence(pairs@)),
                i <= pairs@.len(),
                facts.pairs_check(pairs@, depth as nat, i as nat),
            decreases pairs@.len() - i,
        {
            let (co, cc) = pairs[i];
            proof {
                lemma_pair_equal(facts.roots, pairs@, i as int);
                assert(self.why(co, cc) is Some);
            }
            if let Err(text) = self.check_proof_inner(co, cc, depth + 1) {
                proof {
                    lemma_pairs_fail(facts, pairs@, depth as nat, (i + 1) as nat, pairs@.len());
                }
                return Err(text);
            }
            i = i + 1;
        }
        Ok(())
    }
}

/// A step joins equal ids, for a reason whose pairs are equal.
proof fn lemma_step_equal(roots: Seq<Id>, edges: Edges, from: Id, to: (Id, Reason))
    requires
        is_forest(roots, edges),
        from.at() < edges.len(),
        edges[from.at()].contains(to),
    ensures
        to.0.at() < roots.len(),
        roots[from.at()] == roots[to.0.at()],
        pairs_equal(roots, to.1),
{
    reveal(is_forest);
    let e = choose|e: int| 0 <= e < edges[from.at()].len() && edges[from.at()][e] == to;
    assert(edge_ok(roots, from.at(), edges[from.at()][e]));
}

proof fn lemma_pairs_fail(facts: Facts, pairs: Seq<(Id, Id)>, depth: nat, n: nat, all: nat)
    requires
        0 < n <= all,
        depth <= 64,
        !facts.checks(pairs[n - 1].0, pairs[n - 1].1, depth + 1),
    ensures
        !facts.pairs_check(pairs, depth, all),
    decreases all,
{
    if n < all {
        lemma_pairs_fail(facts, pairs, depth, n, (all - 1) as nat);
    }
}

proof fn lemma_chain_fails(facts: Facts, chain: Chain, depth: nat, n: nat, all: nat)
    requires
        1 < n <= all,
        chain[n - 1].1 matches Reason::Congruence(pairs) && !facts.pairs_check(
            pairs,
            depth,
            pairs.len(),
        ),
    ensures
        !facts.chain_checks(chain, depth, all),
    decreases all,
{
    if n < all {
        lemma_chain_fails(facts, chain, depth, n, (all - 1) as nat);
    }
}

/// Two ids are equal exactly when there is an explanation for it, and it is the
/// only chain of steps between them without detours, and the shortest.
pub proof fn law_explained_iff_equal<L: Language, N: ClassData>(
    egraph: &EGraph<L, N>,
    a: Id,
    b: Id,
    chain: Chain,
)
    requires
        egraph.wf(),
        egraph.model().has(a),
        egraph.model().has(b),
    ensures
        egraph.why(a, b) is Some <==> egraph.model().root(a) == egraph.model().root(b),
        connected(egraph.edges(), a, b) <==> egraph.model().root(a) == egraph.model().root(b),
        explains_simply(egraph.edges(), chain, a, b) ==> egraph.why(a, b) == Some(chain),
        explains(egraph.edges(), chain, a, b) ==> egraph.why(a, b) is Some && egraph.why(
            a,
            b,
        )->0.len() <= chain.len(),
{
    egraph.lemma_safe();
    let (roots, edges) = (egraph.model().roots, egraph.edges());
    lemma_connected_iff_equal(roots, edges, a, b);
    if roots[a.at()] == roots[b.at()] {
        lemma_explanation(roots, edges, a, b);
    }
    if explains_simply(edges, chain, a, b) {
        assert(explains(edges, chain, a, b));
        if a == b && chain.len() > 1 {
            assert(chain[0].0 != chain[chain.len() - 1].0);
        }
        if a == b {
            assert(chain =~= seq![start_at(a)]);
        }
    }
}

} // verus!
