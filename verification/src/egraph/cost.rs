//! Pluggable cost models for extraction, decoupled from the language.
//!
//! Given a node and a way to look up the best cost of each child class,
//! produce this node's total cost. Implement [`CostFunction`] (or use a
//! built-in one) and pass it to `EGraph::extract_best`.

use super::lang::{lawful, Id, Language};
use super::readers::capped;
use std::cmp::Ordering;
use vstd::prelude::*;
use vstd::std_specs::cmp::PartialOrdSpec;

verus! {

/// A pluggable cost model for extraction, decoupled from the language.
///
/// The spec functions describe it: what a node costs over given child costs,
/// and how often at most a cost can still be lowered.
pub trait CostFunction<L: Language> {
    /// The cost type: any partially ordered, cloneable value.
    type Cost: PartialOrd + Clone;

    /// The cost of `node` over the costs of its children.
    open spec fn price(&self, node: L, parts: Seq<Self::Cost>) -> Self::Cost {
        arbitrary()
    }

    /// A number that gets lower with the cost.
    open spec fn rank(cost: Self::Cost) -> nat {
        arbitrary()
    }

    /// Cost of `node`, given a lookup for each child's already computed cost.
    fn cost<F: Fn(Id) -> Self::Cost>(&mut self, node: &L, child_cost: F) -> (total: Self::Cost)
        requires
            lawful::<L>(),
            forall|j: int|
                #![trigger node.kids()[j]]
                0 <= j < node.kids().len() ==> call_requires(child_cost, (node.kids()[j],)),
        ensures
            exists|parts: Seq<Self::Cost>|
                #![trigger old(self).price(*node, parts)]
                {
                    &&& parts.len() == node.kids().len()
                    &&& forall|j: int|
                        #![trigger parts[j]]
                        0 <= j < parts.len() ==> call_ensures(
                            child_cost,
                            (node.kids()[j],),
                            parts[j],
                        )
                    &&& total == old(self).price(*node, parts)
                },
            forall|other: L, parts: Seq<Self::Cost>| #[trigger]
                final(self).price(other, parts) == old(self).price(other, parts),
    ;
}

/// What extraction relies on in a cost model: clones are equal, comparing
/// works, a lower cost has a lower rank and an equal cost an equal rank.
pub open spec fn sound_costs<L: Language, CF: CostFunction<L>>() -> bool {
    &&& CF::Cost::obeys_partial_cmp_spec()
    &&& forall|a: CF::Cost, b: CF::Cost| #[trigger] cloned(a, b) ==> a == b
    &&& forall|a: CF::Cost, b: CF::Cost|
        #![trigger a.partial_cmp_spec(&b)]
        a.partial_cmp_spec(&b) == Some(Ordering::Less) ==> CF::rank(a) < CF::rank(b)
    &&& forall|a: CF::Cost, b: CF::Cost|
        #![trigger a.partial_cmp_spec(&b)]
        a.partial_cmp_spec(&b) == Some(Ordering::Equal) ==> CF::rank(a) == CF::rank(b)
}

/// Each of `low` costs at most as much as its counterpart in `high`.
pub open spec fn cheaper<L: Language, CF: CostFunction<L>>(
    low: Seq<CF::Cost>,
    high: Seq<CF::Cost>,
) -> bool {
    &&& low.len() == high.len()
    &&& forall|j: int|
        #![trigger low[j]]
        #![trigger high[j]]
        0 <= j < low.len() ==> CF::rank(low[j]) <= CF::rank(high[j])
}

/// A cost model under which extraction is optimal: costs are totally ordered
/// by their rank, a node gets no cheaper when its children get dearer, and it
/// costs more than each of its children unless its cost is the largest there
/// is, of rank `top`.
pub open spec fn well_ordered<L: Language, CF: CostFunction<L>>(cf: &CF, top: nat) -> bool {
    &&& forall|a: CF::Cost, b: CF::Cost|
        #![trigger a.partial_cmp_spec(&b)]
        CF::rank(a) < CF::rank(b) ==> a.partial_cmp_spec(&b) == Some(Ordering::Less)
    &&& forall|a: CF::Cost, b: CF::Cost|
        #![trigger a.partial_cmp_spec(&b)]
        CF::rank(a) == CF::rank(b) ==> a.partial_cmp_spec(&b) == Some(Ordering::Equal)
    &&& forall|node: L, low: Seq<CF::Cost>, high: Seq<CF::Cost>|
        #![trigger cf.price(node, low), cf.price(node, high)]
        low.len() == node.kids().len() && cheaper::<L, CF>(low, high) ==> CF::rank(
            cf.price(node, low),
        ) <= CF::rank(cf.price(node, high))
    &&& forall|node: L, parts: Seq<CF::Cost>, j: int|
        #![trigger cf.price(node, parts), parts[j]]
        parts.len() == node.kids().len() && 0 <= j < parts.len() ==> CF::rank(parts[j]) < CF::rank(
            cf.price(node, parts),
        ) || CF::rank(cf.price(node, parts)) == top
    &&& forall|node: L, parts: Seq<CF::Cost>| #[trigger] CF::rank(cf.price(node, parts)) <= top
}

/// The sum of `parts`.
pub open spec fn total(parts: Seq<usize>) -> nat
    decreases parts.len(),
{
    if parts.len() == 0 {
        0
    } else {
        total(parts.drop_last()) + parts.last() as nat
    }
}

/// The largest of `parts`, 0 if there is none.
pub open spec fn largest(parts: Seq<usize>) -> nat
    decreases parts.len(),
{
    if parts.len() == 0 {
        0
    } else if parts.last() > largest(parts.drop_last()) {
        parts.last() as nat
    } else {
        largest(parts.drop_last())
    }
}

/// `own` plus the costs of all children, at most the largest `usize`.
fn summed<L: Language, F: Fn(Id) -> usize>(node: &L, own: usize, child_cost: F) -> (sum: usize)
    requires
        forall|j: int|
            #![trigger node.kids()[j]]
            0 <= j < node.kids().len() ==> call_requires(child_cost, (node.kids()[j],)),
    ensures
        exists|parts: Seq<usize>|
            #![trigger total(parts)]
            {
                &&& parts.len() == node.kids().len()
                &&& forall|j: int|
                    #![trigger parts[j]]
                    0 <= j < parts.len() ==> call_ensures(child_cost, (node.kids()[j],), parts[j])
                &&& sum == capped(own as nat + total(parts))
            },
{
    let ghost mut parts: Seq<usize> = Seq::empty();
    let mut sum: usize = own;
    let mut j: usize = 0;
    while j < node.children().len()
        invariant
            j <= node.kids().len(),
            parts.len() == j,
            sum == capped(own as nat + total(parts)),
            forall|i: int|
                #![trigger node.kids()[i]]
                0 <= i < node.kids().len() ==> call_requires(child_cost, (node.kids()[i],)),
            forall|i: int|
                #![trigger parts[i]]
                0 <= i < parts.len() ==> call_ensures(child_cost, (node.kids()[i],), parts[i]),
        decreases node.kids().len() - j,
    {
        let child = node.children()[j];
        assert(node.kids()[j as int] == child);
        let part = child_cost(child);
        sum = sum.saturating_add(part);
        proof {
            let more = parts.push(part);
            assert(more.drop_last() =~= parts);
            parts = more;
        }
        j = j + 1;
    }
    assert(sum == capped(own as nat + total(parts)));
    sum
}

/// Counts AST nodes: every node costs 1 plus its children. Minimizes term
/// size. Counting stops at the largest `usize`.
pub struct AstSize;

impl<L: Language> CostFunction<L> for AstSize {
    type Cost = usize;

    open spec fn price(&self, node: L, parts: Seq<usize>) -> usize {
        capped(1 + total(parts))
    }

    open spec fn rank(cost: usize) -> nat {
        cost as nat
    }

    fn cost<F: Fn(Id) -> usize>(&mut self, node: &L, child_cost: F) -> usize {
        let sum = summed(node, 1, child_cost);
        proof {
            let parts = choose|parts: Seq<usize>|
                #![trigger total(parts)]
                {
                    &&& parts.len() == node.kids().len()
                    &&& forall|j: int|
                        #![trigger parts[j]]
                        0 <= j < parts.len() ==> call_ensures(
                            child_cost,
                            (node.kids()[j],),
                            parts[j],
                        )
                    &&& sum == capped(1nat + total(parts))
                };
            assert(CostFunction::<L>::price(old(self), *node, parts) == sum);
        }
        sum
    }
}

/// Minimizes tree depth: 1 plus the maximum child depth. Counting stops at the
/// largest `usize`.
pub struct AstDepth;

impl<L: Language> CostFunction<L> for AstDepth {
    type Cost = usize;

    open spec fn price(&self, node: L, parts: Seq<usize>) -> usize {
        capped(1 + largest(parts))
    }

    open spec fn rank(cost: usize) -> nat {
        cost as nat
    }

    fn cost<F: Fn(Id) -> usize>(&mut self, node: &L, child_cost: F) -> usize {
        let ghost mut parts: Seq<usize> = Seq::empty();
        let mut deepest: usize = 0;
        let mut j: usize = 0;
        while j < node.children().len()
            invariant
                j <= node.kids().len(),
                parts.len() == j,
                deepest == largest(parts),
                forall|i: int|
                    #![trigger node.kids()[i]]
                    0 <= i < node.kids().len() ==> call_requires(child_cost, (node.kids()[i],)),
                forall|i: int|
                    #![trigger parts[i]]
                    0 <= i < parts.len() ==> call_ensures(child_cost, (node.kids()[i],), parts[i]),
            decreases node.kids().len() - j,
        {
            let child = node.children()[j];
            assert(node.kids()[j as int] == child);
            let part = child_cost(child);
            if part > deepest {
                deepest = part;
            }
            proof {
                let more = parts.push(part);
                assert(more.drop_last() =~= parts);
                parts = more;
            }
            j = j + 1;
        }
        let sum = deepest.saturating_add(1);
        assert(CostFunction::<L>::price(old(self), *node, parts) == sum);
        sum
    }
}

/// Uses each operator's own [`Language::cost`], summed over children: the
/// weighted model. Counting stops at the largest `usize`.
pub struct LanguageCost;

impl<L: Language> CostFunction<L> for LanguageCost {
    type Cost = usize;

    open spec fn price(&self, node: L, parts: Seq<usize>) -> usize {
        capped(node.weight() as nat + total(parts))
    }

    open spec fn rank(cost: usize) -> nat {
        cost as nat
    }

    fn cost<F: Fn(Id) -> usize>(&mut self, node: &L, child_cost: F) -> usize {
        let own = node.cost();
        proof {
            reveal(lawful);
            assert(own == node.weight());
        }
        let sum = summed(node, own, child_cost);
        proof {
            let parts = choose|parts: Seq<usize>|
                #![trigger total(parts)]
                {
                    &&& parts.len() == node.kids().len()
                    &&& forall|j: int|
                        #![trigger parts[j]]
                        0 <= j < parts.len() ==> call_ensures(
                            child_cost,
                            (node.kids()[j],),
                            parts[j],
                        )
                    &&& sum == capped(own as nat + total(parts))
                };
            assert(CostFunction::<L>::price(old(self), *node, parts) == sum);
        }
        sum
    }
}

proof fn lemma_total_monotone(low: Seq<usize>, high: Seq<usize>)
    requires
        low.len() == high.len(),
        forall|j: int| #![trigger low[j]] 0 <= j < low.len() ==> low[j] <= high[j],
    ensures
        total(low) <= total(high),
        largest(low) <= largest(high),
    decreases low.len(),
{
    if low.len() > 0 {
        assert(low[low.len() - 1] <= high[low.len() - 1]);
        assert forall|j: int|
            #![trigger low.drop_last()[j]]
            0 <= j < low.len() - 1 implies low.drop_last()[j] <= high.drop_last()[j] by {
            assert(low[j] <= high[j]);
        }
        lemma_total_monotone(low.drop_last(), high.drop_last());
    }
}

proof fn lemma_total_part(parts: Seq<usize>, j: int)
    requires
        0 <= j < parts.len(),
    ensures
        parts[j] <= total(parts),
        parts[j] <= largest(parts),
    decreases parts.len(),
{
    if j < parts.len() - 1 {
        lemma_total_part(parts.drop_last(), j);
        assert(parts.drop_last()[j] == parts[j]);
    }
}

/// Extraction by term size is optimal.
pub proof fn law_ast_size_well_ordered<L: Language>()
    ensures
        sound_costs::<L, AstSize>(),
        well_ordered::<L, AstSize>(&AstSize, usize::MAX as nat),
{
    let cf = AstSize;
    assert forall|node: L, low: Seq<usize>, high: Seq<usize>|
        #![trigger CostFunction::<L>::price(&cf, node, low), CostFunction::<L>::price(&cf, node, high)]
        low.len() == node.kids().len() && cheaper::<L, AstSize>(low, high) implies CostFunction::<
        L,
    >::price(&cf, node, low) <= CostFunction::<L>::price(&cf, node, high) by {
        assert forall|j: int| #![trigger low[j]] 0 <= j < low.len() implies low[j] <= high[j] by {
            assert(<AstSize as CostFunction<L>>::rank(low[j]) <= <AstSize as CostFunction<L>>::rank(high[j]));
        }
        lemma_total_monotone(low, high);
    }
    assert forall|node: L, parts: Seq<usize>, j: int|
        #![trigger CostFunction::<L>::price(&cf, node, parts), parts[j]]
        parts.len() == node.kids().len() && 0 <= j < parts.len() implies parts[j]
        < CostFunction::<L>::price(&cf, node, parts) || CostFunction::<L>::price(&cf, node, parts)
        == usize::MAX by {
        lemma_total_part(parts, j);
    }
}

/// Extraction by term depth is optimal.
pub proof fn law_ast_depth_well_ordered<L: Language>()
    ensures
        sound_costs::<L, AstDepth>(),
        well_ordered::<L, AstDepth>(&AstDepth, usize::MAX as nat),
{
    let cf = AstDepth;
    assert forall|node: L, low: Seq<usize>, high: Seq<usize>|
        #![trigger CostFunction::<L>::price(&cf, node, low), CostFunction::<L>::price(&cf, node, high)]
        low.len() == node.kids().len() && cheaper::<L, AstDepth>(low, high) implies CostFunction::<
        L,
    >::price(&cf, node, low) <= CostFunction::<L>::price(&cf, node, high) by {
        assert forall|j: int| #![trigger low[j]] 0 <= j < low.len() implies low[j] <= high[j] by {
            assert(<AstDepth as CostFunction<L>>::rank(low[j]) <= <AstDepth as CostFunction<L>>::rank(high[j]));
        }
        lemma_total_monotone(low, high);
    }
    assert forall|node: L, parts: Seq<usize>, j: int|
        #![trigger CostFunction::<L>::price(&cf, node, parts), parts[j]]
        parts.len() == node.kids().len() && 0 <= j < parts.len() implies parts[j]
        < CostFunction::<L>::price(&cf, node, parts) || CostFunction::<L>::price(&cf, node, parts)
        == usize::MAX by {
        lemma_total_part(parts, j);
    }
}

/// Extraction by operator weights is optimal if every operator costs
/// something.
pub proof fn law_language_cost_well_ordered<L: Language>()
    requires
        forall|node: L| (#[trigger] node.weight()) > 0,
    ensures
        sound_costs::<L, LanguageCost>(),
        well_ordered::<L, LanguageCost>(&LanguageCost, usize::MAX as nat),
{
    let cf = LanguageCost;
    assert forall|node: L, low: Seq<usize>, high: Seq<usize>|
        #![trigger CostFunction::<L>::price(&cf, node, low), CostFunction::<L>::price(&cf, node, high)]
        low.len() == node.kids().len() && cheaper::<L, LanguageCost>(
            low,
            high,
        ) implies CostFunction::<L>::price(&cf, node, low) <= CostFunction::<L>::price(
        &cf,
        node,
        high,
    ) by {
        assert forall|j: int| #![trigger low[j]] 0 <= j < low.len() implies low[j] <= high[j] by {
            assert(<LanguageCost as CostFunction<L>>::rank(low[j]) <= <LanguageCost as CostFunction<L>>::rank(high[j]));
        }
        lemma_total_monotone(low, high);
    }
    assert forall|node: L, parts: Seq<usize>, j: int|
        #![trigger CostFunction::<L>::price(&cf, node, parts), parts[j]]
        parts.len() == node.kids().len() && 0 <= j < parts.len() implies parts[j]
        < CostFunction::<L>::price(&cf, node, parts) || CostFunction::<L>::price(&cf, node, parts)
        == usize::MAX by {
        lemma_total_part(parts, j);
        assert(node.weight() > 0);
    }
}

} // verus!
