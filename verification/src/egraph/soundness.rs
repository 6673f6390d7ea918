//! A rebuild respects every reading that the analysis respects.

use super::lang::{Id, Language};
use super::meaning::{
    analysis_holds, by_operator, called, carries, lemma_carries_trans, lemma_readable_forced, models,
    Reading,
};
use super::passes::{
    modified_by, modify_step, only_modified, pass, passed, passes_done, repaired, spreads,
};
use super::{extends, Analysis, ClassData, EGraph};
use vstd::prelude::*;

verus! {

/// A reading that fits is carried on.
pub proof fn lemma_carries_self<L: Language, N: ClassData>(
    egraph: &EGraph<L, N>,
    eval: Reading<L>,
    vals: Seq<int>,
)
    requires
        models(egraph.model(), eval, vals),
    ensures
        carries(egraph.model(), eval, vals),
{
    assert(extends(vals, vals));
}

/// Carried on from graph to graph.
proof fn lemma_carries_on<L: Language, N: ClassData>(
    mid: &EGraph<L, N>,
    new: &EGraph<L, N>,
    eval: Reading<L>,
    vals: Seq<int>,
)
    requires
        carries(mid.model(), eval, vals),
        forall|now: Seq<int>| #[trigger]
            models(mid.model(), eval, now) ==> carries(new.model(), eval, now),
    ensures
        carries(new.model(), eval, vals),
{
    let now = choose|now: Seq<int>| #[trigger]
        models(mid.model(), eval, now) && extends(vals, now);
    lemma_carries_trans(new.model(), eval, vals, now);
}

/// Restoring congruence respects every reading.
proof fn lemma_repaired_carries<L: Language, N: ClassData>(
    old: &EGraph<L, N>,
    new: &EGraph<L, N>,
    eval: Reading<L>,
    vals: Seq<int>,
)
    requires
        old.wf(),
        repaired(old, new),
        by_operator(eval),
        carries(old.model(), eval, vals),
    ensures
        carries(new.model(), eval, vals),
{
    old.lemma_safe();
    new.lemma_safe();
    lemma_readable_forced(old.model(), new.model());
    lemma_carries_on(old, new, eval, vals);
}

/// Calls of the analysis respect the reading if each of them does.
proof fn lemma_modified_carries<L: Language, N: Analysis<L>>(
    old: &EGraph<L, N>,
    new: &EGraph<L, N>,
    ids: Seq<Id>,
    seen: Set<Id>,
    eval: Reading<L>,
    vals: Seq<int>,
)
    requires
        modified_by(old, new, ids, seen),
        !N::inert(),
        analysis_holds::<L, N>(eval),
        carries(old.model(), eval, vals),
    ensures
        carries(new.model(), eval, vals),
    decreases ids.len(),
{
    if ids.len() > 0 {
        let (mid, found, had) = choose|mid: &EGraph<L, N>, found: &EGraph<L, N>, had: Set<Id>|
            {
                &&& #[trigger] modify_step(mid, found, new, ids.last(), had, seen)
                &&& modified_by(old, mid, ids.drop_last(), had)
            };
        lemma_modified_carries(old, mid, ids.drop_last(), had, eval, vals);
        let id = mid.model().root(ids.last());
        assert(carries(found.model(), eval, vals));
        if !had.contains(id) {
            assert(N::modified(found, id, new));
            assert(called(found, new));
            assert forall|now: Seq<int>| #[trigger]
                models(found.model(), eval, now) implies carries(new.model(), eval, now) by {}
            lemma_carries_on(found, new, eval, vals);
        }
    }
}

/// One pass respects the reading.
proof fn lemma_pass_carries<L: Language, N: Analysis<L>>(
    old: &EGraph<L, N>,
    new: &EGraph<L, N>,
    eval: Reading<L>,
    vals: Seq<int>,
)
    requires
        old.wf(),
        pass(old, new),
        !N::inert(),
        analysis_holds::<L, N>(eval),
        by_operator(eval),
        carries(old.model(), eval, vals),
    ensures
        carries(new.model(), eval, vals),
{
    let (tidied, spread, ids) = choose|
        tidied: &EGraph<L, N>,
        spread: &EGraph<L, N>,
        ids: Seq<Id>,
    |
        {
            &&& #[trigger] only_modified(spread, new, ids)
            &&& #[trigger] spreads(tidied, spread)
            &&& repaired(old, tidied)
        };
    lemma_repaired_carries(old, tidied, eval, vals);
    assert(spread.model() == tidied.model());
    reveal(only_modified);
    let seen = choose|seen: Set<Id>| #[trigger] modified_by(spread, new, ids, seen);
    lemma_modified_carries(spread, new, ids, seen, eval, vals);
}

proof fn lemma_passed_carries<L: Language, N: Analysis<L>>(
    old: &EGraph<L, N>,
    new: &EGraph<L, N>,
    n: nat,
    eval: Reading<L>,
    vals: Seq<int>,
)
    requires
        passed(old, new, n),
        !N::inert(),
        analysis_holds::<L, N>(eval),
        by_operator(eval),
        carries(old.model(), eval, vals),
    ensures
        carries(new.model(), eval, vals),
    decreases n,
{
    if n > 0 {
        let mid = choose|mid: &EGraph<L, N>| #[trigger]
            pass(mid, new) && mid.wf() && passed(old, mid, (n - 1) as nat);
        lemma_passed_carries(old, mid, (n - 1) as nat, eval, vals);
        lemma_pass_carries(mid, new, eval, vals);
    }
}

/// A rebuild is sound: a reading that fits the graph and is respected by an
/// analysis that changes it can be carried on.
pub proof fn law_rebuild_is_sound<L: Language, N: Analysis<L>>(
    old: &EGraph<L, N>,
    new: &EGraph<L, N>,
    eval: Reading<L>,
    vals: Seq<int>,
)
    requires
        old.wf(),
        passes_done(old, new),
        !N::inert(),
        analysis_holds::<L, N>(eval),
        by_operator(eval),
        models(old.model(), eval, vals),
    ensures
        carries(new.model(), eval, vals),
{
    let (last, n) = choose|last: &EGraph<L, N>, n: nat|
        {
            &&& #[trigger] passed(old, last, n)
            &&& last.wf() && repaired(last, new) && new.stale().len() == 0
        };
    lemma_carries_self(old, eval, vals);
    lemma_passed_carries(old, last, n, eval, vals);
    lemma_repaired_carries(last, new, eval, vals);
}

} // verus!
