//! What explanations tell, and which proofs are accepted.

use super::explain::{no_proof_text, too_deep_text, Facts};
use super::forest::{
    edge_ok, explains, explains_simply, explanation, is_forest, lemma_chain_class,
    lemma_explanation, lemma_shorten, pairs_equal, Chain, Edges, Reason,
};
use super::lang::{Id, Language};
use super::{ClassData, EGraph};
use crate::text::{decimal, lemma_pieces};
use vstd::prelude::*;

verus! {

// ---------------------------------------------------------------------------
// The text of an explanation.
// ---------------------------------------------------------------------------

/// The text for the first entries of a chain is made of one piece for each.
proof fn lemma_chain_pieces(
    facts: Facts,
    chain: Chain,
    depth: nat,
    n: nat,
    piece: spec_fn(int) -> Seq<char>,
)
    requires
        n <= chain.len(),
        n > 0 ==> piece(0) == facts.first_line(depth, chain[0].0),
        forall|i: int|
            #![trigger piece(i)]
            0 < i < n ==> piece(i) == match chain[i].1 {
                Reason::Rule(name) => facts.step_line(depth, chain[i].0, name),
                Reason::Congruence(pairs) => facts.step_line(depth, chain[i].0, "congruence"@)
                    + facts.pairs_story(pairs, depth, pairs.len()),
            },
    ensures
        facts.chain_story(chain, depth, n) == Seq::new(n, piece).flatten(),
    decreases n,
{
    if n > 0 {
        let less = (n - 1) as nat;
        lemma_chain_pieces(facts, chain, depth, less, piece);
        lemma_pieces(less, piece);
        assert(piece(n - 1) == piece(less as int));
        assert(facts.chain_story(chain, depth, n) =~= facts.chain_story(chain, depth, less)
            + piece(n - 1));
    } else {
        assert(Seq::new(0, piece).flatten() =~= Seq::empty());
    }
}

/// The text for the first pairs of children is made of one piece for each.
proof fn lemma_pair_pieces(
    facts: Facts,
    pairs: Seq<(Id, Id)>,
    depth: nat,
    n: nat,
    piece: spec_fn(int) -> Seq<char>,
)
    requires
        n <= pairs.len(),
        depth < 4,
        forall|k: int|
            #![trigger piece(k)]
            0 <= k < n ==> piece(k) == facts.where_line(depth, pairs[k]) + facts.story(
                pairs[k].0,
                pairs[k].1,
                depth + 3,
            ),
    ensures
        facts.pairs_story(pairs, depth, n) == Seq::new(n, piece).flatten(),
    decreases n,
{
    if n > 0 {
        let less = (n - 1) as nat;
        lemma_pair_pieces(facts, pairs, depth, less, piece);
        lemma_pieces(less, piece);
        assert(piece(n - 1) == piece(less as int));
        assert(facts.pairs_story(pairs, depth, n) =~= facts.pairs_story(pairs, depth, less)
            + piece(n - 1));
    } else {
        assert(Seq::new(0, piece).flatten() =~= Seq::empty());
    }
}

/// An explanation tells every step. Whatever chain of recorded edges leads from
/// `a` to `b` without coming twice to the same id, the text has for its first
/// entry a line with the term of `a`, and for each other entry, in their order,
/// a line with the term that the step leads to and the name of the rule, or
/// `congruence`. Below a congruence step stand, as long as the indentation is
/// less than four blanks, a line for each pair of children that it rests on and
/// the explanation for that pair, indented by three blanks more.
pub proof fn law_explanation_tells_every_step<L: Language, N: ClassData>(
    egraph: &EGraph<L, N>,
    chain: Chain,
    a: Id,
    b: Id,
    depth: nat,
)
    requires
        egraph.wf(),
        chain.len() > 0,
        chain[0] == (a, Reason::Rule(Seq::empty())),
        chain[chain.len() - 1].0 == b,
        forall|i: int|
            #![trigger chain[i]]
            0 <= i < chain.len() ==> chain[i].0.at() < egraph.edges().len(),
        forall|i: int|
            #![trigger chain[i]]
            0 < i < chain.len() ==> egraph.edges()[chain[i - 1].0.at()].contains(chain[i]),
        forall|i: int, j: int|
            #![trigger chain[i], chain[j]]
            0 <= i < j < chain.len() ==> chain[i].0 != chain[j].0,
    ensures
        egraph.facts().story(a, b, depth) == Seq::new(
            chain.len(),
            |i: int|
                {
                    let pad = Seq::new(depth, |k: int| ' ');
                    let term = egraph.terms()[chain[i].0.at()];
                    if i == 0 {
                        pad + term + "\n"@
                    } else {
                        match chain[i].1 {
                            Reason::Rule(name) => pad + " = "@ + term + " [by "@ + name + "]\n"@,
                            Reason::Congruence(pairs) => pad + " = "@ + term + " [by "@
                                + "congruence"@ + "]\n"@ + if depth < 4 {
                                Seq::new(
                                    pairs.len(),
                                    |k: int|
                                        pad + " where "@ + egraph.terms()[pairs[k].0.at()] + " = "@
                                            + egraph.terms()[pairs[k].1.at()] + ":\n"@
                                            + egraph.facts().story(
                                            pairs[k].0,
                                            pairs[k].1,
                                            depth + 3,
                                        ),
                                ).flatten()
                            } else {
                                Seq::empty()
                            },
                        }
                    }
                },
        ).flatten(),
{
    egraph.lemma_safe();
    let facts = egraph.facts();
    let (roots, edges, terms) = (facts.roots, facts.edges, facts.terms);
    assert(explains_simply(edges, chain, a, b)) by {
        assert(explains(edges, chain, a, b));
    }
    assert(edges.len() == roots.len() && terms.len() == roots.len());
    lemma_chain_class_all(roots, edges, chain);
    if a == b {
        if chain.len() > 1 {
            assert(chain[0].0 != chain[chain.len() - 1].0);
        }
        assert(chain =~= seq![super::forest::start_at(a)]);
    } else {
        assert(chain[chain.len() - 1].0 == b);
        lemma_explanation(roots, edges, a, b);
        assert(chain == explanation(edges, a, b));
    }
    assert(egraph.why(a, b) == Some(chain));
    let pad = Seq::new(depth, |k: int| ' ');
    assert(crate::text::blanks(depth) =~= pad);
    let inner = |pairs: Seq<(Id, Id)>|
        |k: int|
            pad + " where "@ + egraph.terms()[pairs[k].0.at()] + " = "@
                + egraph.terms()[pairs[k].1.at()] + ":\n"@ + egraph.facts().story(
                pairs[k].0,
                pairs[k].1,
                depth + 3,
            );
    let piece = |i: int|
        {
            let term = egraph.terms()[chain[i].0.at()];
            if i == 0 {
                pad + term + "\n"@
            } else {
                match chain[i].1 {
                    Reason::Rule(name) => pad + " = "@ + term + " [by "@ + name + "]\n"@,
                    Reason::Congruence(pairs) => pad + " = "@ + term + " [by "@ + "congruence"@
                        + "]\n"@ + if depth < 4 {
                        Seq::new(pairs.len(), inner(pairs)).flatten()
                    } else {
                        Seq::empty()
                    },
                }
            }
        };
    assert forall|i: int| #![trigger piece(i)] 0 < i < chain.len() implies piece(i)
        == match chain[i].1 {
        Reason::Rule(name) => facts.step_line(depth, chain[i].0, name),
        Reason::Congruence(pairs) => facts.step_line(depth, chain[i].0, "congruence"@)
            + facts.pairs_story(pairs, depth, pairs.len()),
    } by {
        assert(chain[i].0.at() < edges.len());
        match chain[i].1 {
            Reason::Rule(name) => {},
            Reason::Congruence(pairs) => {
                lemma_step_pairs(roots, edges, chain, i);
                if depth < 4 {
                    assert forall|k: int|
                        #![trigger inner(pairs)(k)]
                        0 <= k < pairs.len() implies inner(pairs)(k) == facts.where_line(
                        depth,
                        pairs[k],
                    ) + facts.story(pairs[k].0, pairs[k].1, depth + 3) by {
                        assert(pairs[k].0.at() < roots.len() && pairs[k].1.at() < roots.len());
                    }
                    lemma_pair_pieces(facts, pairs, depth, pairs.len(), inner(pairs));
                } else {
                    assert(facts.pairs_story(pairs, depth, pairs.len()) =~= Seq::empty());
                }
            },
        }
    }
    assert(chain[0].0.at() < edges.len());
    lemma_chain_pieces(facts, chain, depth, chain.len(), piece);
    let shown = Seq::new(
        chain.len(),
        |i: int|
            {
                let pad = Seq::new(depth, |k: int| ' ');
                let term = egraph.terms()[chain[i].0.at()];
                if i == 0 {
                    pad + term + "\n"@
                } else {
                    match chain[i].1 {
                        Reason::Rule(name) => pad + " = "@ + term + " [by "@ + name + "]\n"@,
                        Reason::Congruence(pairs) => pad + " = "@ + term + " [by "@ + "congruence"@
                            + "]\n"@ + if depth < 4 {
                            Seq::new(
                                pairs.len(),
                                |k: int|
                                    pad + " where "@ + egraph.terms()[pairs[k].0.at()] + " = "@
                                        + egraph.terms()[pairs[k].1.at()] + ":\n"@
                                        + egraph.facts().story(
                                        pairs[k].0,
                                        pairs[k].1,
                                        depth + 3,
                                    ),
                            ).flatten()
                        } else {
                            Seq::empty()
                        },
                    }
                }
            },
    );
    assert forall|i: int| 0 <= i < chain.len() implies #[trigger] shown[i] == Seq::new(
        chain.len(),
        piece,
    )[i] by {
        if i > 0 {
            match chain[i].1 {
                Reason::Rule(name) => {},
                Reason::Congruence(pairs) => {
                    if depth < 4 {
                        assert(Seq::new(
                            pairs.len(),
                            |k: int|
                                pad + " where "@ + egraph.terms()[pairs[k].0.at()] + " = "@
                                    + egraph.terms()[pairs[k].1.at()] + ":\n"@
                                    + egraph.facts().story(pairs[k].0, pairs[k].1, depth + 3),
                        ) =~= Seq::new(pairs.len(), inner(pairs)));
                    }
                },
            }
        }
    }
    assert(shown =~= Seq::new(chain.len(), piece));
}

/// All ids of a chain are equal to the first one.
proof fn lemma_chain_class_all(roots: Seq<Id>, edges: Edges, chain: Chain)
    requires
        is_forest(roots, edges),
        super::forest::is_chain(edges, chain),
    ensures
        forall|i: int|
            #![trigger chain[i]]
            0 <= i < chain.len() ==> roots[chain[i].0.at()] == roots[chain[0].0.at()],
{
    reveal(is_forest);
    assert forall|i: int| #![trigger chain[i]] 0 <= i < chain.len() implies roots[chain[i].0.at()]
        == roots[chain[0].0.at()] by {
        lemma_chain_class(roots, edges, chain, i);
    }
}

/// The pairs that a step of a chain rests on are known ids and equal.
proof fn lemma_step_pairs(roots: Seq<Id>, edges: Edges, chain: Chain, i: int)
    requires
        is_forest(roots, edges),
        super::forest::is_chain(edges, chain),
        0 < i < chain.len(),
    ensures
        pairs_equal(roots, chain[i].1),
        edges.len() == roots.len(),
{
    reveal(is_forest);
    let x = chain[i - 1].0.at();
    assert(chain[i - 1].0.at() < edges.len());
    assert(edges[x].contains(chain[i]));
    let e = choose|e: int| 0 <= e < edges[x].len() && edges[x][e] == chain[i];
    assert(edge_ok(roots, x, edges[x][e]));
}

/// Ids that are not equal have no explanation, and the explanation of an id
/// that is unknown is a question mark.
pub proof fn law_nothing_to_explain<L: Language, N: ClassData>(
    egraph: &EGraph<L, N>,
    a: Id,
    b: Id,
    depth: nat,
)
    requires
        egraph.wf(),
        !(egraph.model().has(a) && egraph.model().has(b) && egraph.model().root(a)
            == egraph.model().root(b)),
    ensures
        a != b ==> egraph.why(a, b) is None && egraph.facts().story(a, b, depth).len() == 0,
        a == b ==> egraph.facts().story(a, b, depth) == Seq::new(depth, |k: int| ' ') + "?"@
            + "\n"@,
{
    egraph.lemma_safe();
    let facts = egraph.facts();
    if a == b {
        let chain = seq![super::forest::start_at(a)];
        assert(facts.chain_story(chain, depth, 0) =~= Seq::empty());
        assert(facts.chain_story(chain, depth, 1) =~= facts.first_line(depth, a));
        assert(crate::text::blanks(depth) =~= Seq::new(depth, |k: int| ' '));
    }
}

// ---------------------------------------------------------------------------
// The proofs that are accepted.
// ---------------------------------------------------------------------------

/// The pairs of children that a step rests on.
pub open spec fn rests_on(reason: Reason) -> Seq<(Id, Id)> {
    match reason {
        Reason::Rule(name) => Seq::empty(),
        Reason::Congruence(pairs) => pairs,
    }
}

/// There is a proof that `a` and `b` are equal: the two are the same id, or a
/// chain of recorded edges leads from one to the other, where every pair of
/// children that a congruence step names has a proof as well. Congruence steps
/// are nested at most `height` deep.
pub open spec fn provable(edges: Edges, a: Id, b: Id, height: nat) -> bool
    decreases height, 2nat,
{
    a == b || exists|chain: Chain| #[trigger]
        explains(edges, chain, a, b) && is_backed(edges, chain, height)
}

/// Every pair of children that a congruence step of the chain names has a
/// proof.
pub open spec fn is_backed(edges: Edges, chain: Chain, height: nat) -> bool
    decreases height, 1nat,
{
    forall|i: int, k: int|
        #![trigger rests_on(chain[i].1)[k]]
        0 < i < chain.len() && 0 <= k < rests_on(chain[i].1).len() ==> provable_inside(
            edges,
            rests_on(chain[i].1)[k],
            height,
        )
}

/// There is a proof for a pair of children, nested one deeper.
pub open spec fn provable_inside(edges: Edges, pair: (Id, Id), height: nat) -> bool
    decreases height, 0nat,
{
    height > 0 && provable(edges, pair.0, pair.1, (height - 1) as nat)
}

/// The first pairs hold exactly when each of them does.
proof fn lemma_pairs_check(facts: Facts, pairs: Seq<(Id, Id)>, depth: nat, n: nat)
    requires
        depth <= 64,
        n <= pairs.len(),
    ensures
        facts.pairs_check(pairs, depth, n) <==> forall|k: int|
            #![trigger pairs[k]]
            0 <= k < n ==> facts.checks(pairs[k].0, pairs[k].1, depth + 1),
    decreases n,
{
    if n > 0 {
        lemma_pairs_check(facts, pairs, depth, (n - 1) as nat);
        assert(facts.checks(pairs[n - 1].0, pairs[n - 1].1, depth + 1) || !facts.checks(
            pairs[n - 1].0,
            pairs[n - 1].1,
            depth + 1,
        ));
    }
}

/// The first entries of a chain hold exactly when each congruence step among
/// them does.
proof fn lemma_chain_checks(facts: Facts, chain: Chain, depth: nat, n: nat)
    requires
        depth <= 64,
        n <= chain.len(),
    ensures
        facts.chain_checks(chain, depth, n) <==> forall|i: int, k: int|
            #![trigger rests_on(chain[i].1)[k]]
            0 < i < n && 0 <= k < rests_on(chain[i].1).len()
                ==> facts.checks(
                rests_on(chain[i].1)[k].0,
                rests_on(chain[i].1)[k].1,
                depth + 1,
            ),
    decreases n,
{
    if n > 1 {
        let less = (n - 1) as nat;
        lemma_chain_checks(facts, chain, depth, less);
        match chain[n - 1].1 {
            Reason::Rule(name) => {},
            Reason::Congruence(pairs) => {
                lemma_pairs_check(facts, pairs, depth, pairs.len());
                assert(rests_on(chain[n - 1].1) == pairs);
                if !facts.pairs_check(pairs, depth, pairs.len()) {
                    let k = choose|k: int|
                        #![trigger pairs[k]]
                        0 <= k < pairs.len() && !facts.checks(pairs[k].0, pairs[k].1, depth + 1);
                    assert(rests_on(chain[n - 1].1)[k] == pairs[k]);
                }
            },
        }
    }
}

/// Checking a proof accepts exactly what can be proved: two ids pass, at any
/// nesting up to 64, exactly when some proof connects them whose congruence
/// steps are nested no deeper than what is left of 64, however that proof goes.
pub proof fn law_checks_what_is_provable<L: Language, N: ClassData>(
    egraph: &EGraph<L, N>,
    a: Id,
    b: Id,
    depth: nat,
)
    requires
        egraph.wf(),
    ensures
        depth <= 64 ==> (egraph.facts().checks(a, b, depth) <==> provable(
            egraph.edges(),
            a,
            b,
            (64 - depth) as nat,
        )),
        depth > 64 ==> !egraph.facts().checks(a, b, depth),
    decreases 65 - depth,
{
    if depth <= 64 && a != b {
        egraph.lemma_safe();
        let facts = egraph.facts();
        let (roots, edges) = (facts.roots, facts.edges);
        let height = (64 - depth) as nat;
        if facts.checks(a, b, depth) {
            let chain = explanation(edges, a, b);
            assert(egraph.why(a, b) == Some(chain));
            lemma_explanation(roots, edges, a, b);
            assert(explains(edges, chain, a, b));
            lemma_chain_checks(facts, chain, depth, chain.len());
            assert forall|i: int, k: int|
                #![trigger rests_on(chain[i].1)[k]]
                0 < i < chain.len() && 0 <= k < rests_on(chain[i].1).len() implies provable_inside(
                edges,
                rests_on(chain[i].1)[k],
                height,
            ) by {
                let pair = rests_on(chain[i].1)[k];
                assert(facts.checks(pair.0, pair.1, depth + 1));
                law_checks_what_is_provable(egraph, pair.0, pair.1, depth + 1);
            }
            assert(is_backed(edges, chain, height));
        }
        if provable(edges, a, b, height) {
            let walk = choose|chain: Chain| #[trigger]
                explains(edges, chain, a, b) && is_backed(edges, chain, height);
            let chain = lemma_shorten(edges, walk, a, b);
            lemma_chain_class_all(roots, edges, walk);
            assert(walk[walk.len() - 1].0 == b && walk[0].0 == a);
            assert(walk[walk.len() - 1].0.at() < edges.len() && walk[0].0.at() < edges.len());
            lemma_explanation(roots, edges, a, b);
            assert(egraph.why(a, b) == Some(chain));
            assert forall|i: int, k: int|
                #![trigger rests_on(chain[i].1)[k]]
                0 < i < chain.len() && 0 <= k < rests_on(chain[i].1).len() implies facts.checks(
                rests_on(chain[i].1)[k].0,
                rests_on(chain[i].1)[k].1,
                depth + 1,
            ) by {
                let pair = rests_on(chain[i].1)[k];
                let l = choose|l: int| 0 < l < walk.len() && #[trigger] walk[l] == chain[i];
                assert(rests_on(walk[l].1)[k] == pair);
                law_checks_what_is_provable(egraph, pair.0, pair.1, depth + 1);
            }
            lemma_chain_checks(facts, chain, depth, chain.len());
        }
    }
}

/// What is said of a proof that fails: that nothing connects the two ids, or
/// that it is nested too deeply.
pub proof fn law_failures_are_told(a: Id, b: Id)
    ensures
        no_proof_text(a, b) == "no proof connecting "@ + "Id("@ + decimal(a.0 as nat) + ")"@
            + " and "@ + "Id("@ + decimal(b.0 as nat) + ")"@,
        too_deep_text() == "proof exceeded maximum recursion depth"@,
{
    assert(no_proof_text(a, b) =~= "no proof connecting "@ + "Id("@ + decimal(a.0 as nat) + ")"@
        + " and "@ + "Id("@ + decimal(b.0 as nat) + ")"@);
}

} // verus!
