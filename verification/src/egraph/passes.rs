//! What a rebuild does, step by step: congruence is restored by merges that it
//! forces, data is carried on to parents, and the analysis reacts.

use super::closure::{collected, forced, tidy};
use super::forest::Reason;
use super::freshness::{caught_up, made_by_operator, queued};
use super::graph::merged_for;
use super::lang::{Id, Language};
use super::meaning::stems_from;
use super::model::{canon, in_range, lemma_canon_coarsens, lemma_canon_twice};
use super::rebuild::{
    differing, edges_by_congruence, joins_forms, modify_ran, same_but_data,
};
use super::{extends, Analysis, ClassData, EGraph};
use vstd::prelude::*;

verus! {

// ---------------------------------------------------------------------------
// Merges by congruence.
// ---------------------------------------------------------------------------

/// The classes, their data, the explanations, the frozen terms, the hooks and
/// what waits for the analysis are as before.
pub open spec fn reads_same<L: Language, N: ClassData>(
    old: &EGraph<L, N>,
    new: &EGraph<L, N>,
) -> bool {
    &&& new.model().roots == old.model().roots
    &&& new.model().nodes == old.model().nodes
    &&& new.edges() == old.edges()
    &&& new.terms() == old.terms()
    &&& new.watchers() == old.watchers()
    &&& new.stale() == old.stale()
    &&& forall|id: Id|
        #![trigger new.class_data(id)]
        old.model().has(id) ==> new.class_data(id) == old.class_data(id)
}

/// `node` is the canonical form that `orig` had at some point between `start`
/// and `now`.
#[verifier::opaque]
pub open spec fn was_form<L: Language, N: ClassData>(
    start: &EGraph<L, N>,
    now: &EGraph<L, N>,
    orig: L,
    node: L,
) -> bool {
    exists|prev: &EGraph<L, N>|
        {
            &&& #[trigger] prev.safe()
            &&& node == canon(prev.model().roots, orig)
            &&& start.grows_into(prev)
            &&& prev.grows_into(now)
        }
}

/// The parent entry `entry` goes back to one that the graph `start` had: for the
/// same node, or for one that it was the canonical form of in between.
pub open spec fn entry_traced<L: Language, N: ClassData>(
    start: &EGraph<L, N>,
    now: &EGraph<L, N>,
    entry: (L, Id),
) -> bool {
    exists|k: int, e: int|
        #![trigger start.model().parents[k][e]]
        {
            &&& 0 <= k < start.model().len() && 0 <= e < start.model().parents[k].len()
            &&& now.model().root(start.model().parents[k][e].1) == now.model().root(entry.1)
            &&& start.model().parents[k][e].0 == entry.0 || was_form(
                start,
                now,
                start.model().parents[k][e].0,
                entry.0,
            )
        }
}

/// All parent entries of `now`, and those in `extra`, go back to ones of
/// `start`.
pub open spec fn all_traced<L: Language, N: ClassData>(
    start: &EGraph<L, N>,
    now: &EGraph<L, N>,
    extra: Seq<(L, Id)>,
) -> bool {
    &&& forall|c: int, e: int|
        #![trigger now.model().parents[c][e]]
        0 <= c < now.model().len() && 0 <= e < now.model().parents[c].len() ==> entry_traced(
            start,
            now,
            now.model().parents[c][e],
        )
    &&& forall|e: int|
        #![trigger extra[e]]
        0 <= e < extra.len() ==> entry_traced(start, now, extra[e])
}

/// Class `b` was merged into class `a`, or the other way round, by congruence:
/// `node` is a recorded parent entry of `b` whose children have moved on, and the
/// hashcons table has its canonical form in `a`. The edge names the children
/// that moved on.
pub open spec fn congruence_step<L: Language, N: ClassData>(
    start: &EGraph<L, N>,
    old: &EGraph<L, N>,
    new: &EGraph<L, N>,
    a: Id,
    b: Id,
    node: L,
) -> bool {
    let form = canon(old.model().roots, node);
    let reason = Reason::Congruence(differing(node.kids(), form.kids()));
    &&& old.safe()
    &&& joins_forms(old.model(), a, b, node, reason)
    &&& old.model().interned(node, a)
    &&& entry_traced(start, old, (node, b))
    &&& merged_for(old, new, a, b, reason)
}

/// `now` came out of `start` by `n` merges by congruence, and by nothing else.
pub open spec fn merged_up<L: Language, N: ClassData>(
    start: &EGraph<L, N>,
    now: &EGraph<L, N>,
    n: nat,
) -> bool
    decreases n,
{
    if n == 0 {
        reads_same(start, now)
    } else {
        exists|old: &EGraph<L, N>, new: &EGraph<L, N>, a: Id, b: Id, node: L|
            {
                &&& #[trigger] congruence_step(start, old, new, a, b, node)
                &&& reads_same(new, now)
                &&& merged_up(start, old, (n - 1) as nat)
            }
    }
}

/// `now` came out of `start` by merges by congruence, and by nothing else.
#[verifier::opaque]
pub open spec fn only_congruence<L: Language, N: ClassData>(
    start: &EGraph<L, N>,
    now: &EGraph<L, N>,
) -> bool {
    exists|n: nat| #[trigger] merged_up(start, now, n)
}

/// Every class of `new` holds the canonical forms of its nodes in `old`, once
/// each, and nothing else that can be read differs.
pub open spec fn cleaned<L: Language, N: ClassData>(
    old: &EGraph<L, N>,
    new: &EGraph<L, N>,
) -> bool {
    &&& collected(old.model(), new.model())
    &&& new.edges() == old.edges()
    &&& new.terms() == old.terms()
    &&& new.watchers() == old.watchers()
    &&& new.stale() == old.stale()
    &&& new.reason() == old.reason()
    &&& forall|id: Id|
        #![trigger new.class_data(id)]
        old.model().has(id) ==> new.class_data(id) == old.class_data(id)
}

/// Congruence was restored: what congruence forces to be equal was merged, and
/// the classes were cleaned up. Nothing else happened.
pub open spec fn repaired<L: Language, N: ClassData>(
    old: &EGraph<L, N>,
    new: &EGraph<L, N>,
) -> bool {
    &&& new.wf() && tidy(new.model()) && new.model().pending.len() == 0
    &&& old.grows_into(new)
    &&& new.model().len() == old.model().len()
    &&& new.terms() == old.terms()
    &&& new.reason() == old.reason() || new.reason() == Reason::Rule("congruence"@)
    &&& extends(old.stale(), new.stale())
    &&& forced(old.model(), new.model().roots)
    &&& stems_from(old.model(), new.model())
    &&& edges_by_congruence(old, new)
    &&& exists|merged: &EGraph<L, N>| #[trigger]
        only_congruence(old, merged) && cleaned(merged, new)
}

// ---------------------------------------------------------------------------
// Data and the analysis.
// ---------------------------------------------------------------------------

/// The data of all classes is as before.
pub open spec fn same_data<L: Language, N: ClassData>(
    old: &EGraph<L, N>,
    new: &EGraph<L, N>,
) -> bool {
    same_but_data(old, new) && forall|id: Id|
        #![trigger new.class_data(id)]
        old.model().has(id) ==> new.class_data(id) == old.class_data(id)
}

/// What `make` computes for entry `e` of the parents of class `c` was merged
/// into the data of the class that owns the entry.
pub open spec fn data_step<L: Language, N: Analysis<L>>(
    old: &EGraph<L, N>,
    new: &EGraph<L, N>,
    c: int,
    e: int,
    data: N::Data,
) -> bool {
    let entry = old.model().parents[c][e];
    let owner = old.model().root(entry.1);
    &&& 0 <= c < old.model().len() && 0 <= e < old.model().parents[c].len()
    &&& same_but_data(old, new)
    &&& N::made(old.kid_data(entry.0), &entry.0, &data)
    &&& exists|changed: bool| #[trigger]
        N::joined(&old.class_data(owner), &data, &new.class_data(owner), changed)
    &&& forall|id: Id|
        #![trigger new.class_data(id)]
        old.model().has(id) && id != owner ==> new.class_data(id) == old.class_data(id)
}

/// The data of `now` came out of that of `start` by `n` such steps.
pub open spec fn carried_up<L: Language, N: Analysis<L>>(
    start: &EGraph<L, N>,
    now: &EGraph<L, N>,
    n: nat,
) -> bool
    decreases n,
{
    if n == 0 {
        same_data(start, now)
    } else {
        exists|old: &EGraph<L, N>, new: &EGraph<L, N>, c: int, e: int, data: N::Data|
            {
                &&& #[trigger] data_step(old, new, c, e, data)
                &&& same_data(new, now)
                &&& carried_up(start, old, (n - 1) as nat)
            }
    }
}

/// The data of `now` came out of that of `start` by such steps only.
#[verifier::opaque]
pub open spec fn only_carried<L: Language, N: Analysis<L>>(
    start: &EGraph<L, N>,
    now: &EGraph<L, N>,
) -> bool {
    exists|n: nat| #[trigger] carried_up(start, now, n)
}

/// The data of the tidy graph `tidied` was carried on to parents, and nothing
/// else changed: what `make` computes for the parents of a class that waited or
/// changed is in `spread`.
pub open spec fn spreads<L: Language, N: Analysis<L>>(
    tidied: &EGraph<L, N>,
    spread: &EGraph<L, N>,
) -> bool {
    &&& tidied.wf() && tidy(tidied.model()) && tidied.model().pending.len() == 0
    &&& tidied.stale().len() > 0
    &&& spread.wf() && same_but_data(tidied, spread) && spread.stale().len() == 0
    &&& only_carried(tidied, spread)
    &&& made_by_operator::<L, N>() ==> forall|k: Id|
        #![trigger spread.class_data(k)]
        tidied.model().has(k) && moved(tidied, spread, k) ==> caught_up(spread, k)
}

/// The data of class `k` waited for the analysis, or changed.
pub open spec fn moved<L: Language, N: ClassData>(
    tidied: &EGraph<L, N>,
    spread: &EGraph<L, N>,
    k: Id,
) -> bool {
    spread.class_data(k) != tidied.class_data(k) || queued(
        tidied.model().roots,
        tidied.stale(),
        k,
    )
}

/// The turn of the id `raw`: the analysis was called on its class, unless it was
/// called on it before.
pub open spec fn modify_step<L: Language, N: Analysis<L>>(
    old: &EGraph<L, N>,
    found: &EGraph<L, N>,
    new: &EGraph<L, N>,
    raw: Id,
    had: Set<Id>,
    seen: Set<Id>,
) -> bool {
    let id = old.model().root(raw);
    &&& old.same(found) && found.wf() && found.model().has(id)
    &&& if had.contains(id) {
        *new == *found && seen == had
    } else {
        N::modified(found, id, new) && new.wf() && found.grows_into(new) && seen == had.insert(id)
    }
}

/// The ids `ids` had their turn one after the other, and nothing else happened.
/// `seen` are the classes that the analysis was called on.
pub open spec fn modified_by<L: Language, N: Analysis<L>>(
    old: &EGraph<L, N>,
    new: &EGraph<L, N>,
    ids: Seq<Id>,
    seen: Set<Id>,
) -> bool
    decreases ids.len(),
{
    if ids.len() == 0 {
        *new == *old && seen == Set::<Id>::empty()
    } else {
        exists|mid: &EGraph<L, N>, found: &EGraph<L, N>, had: Set<Id>|
            {
                &&& #[trigger] modify_step(mid, found, new, ids.last(), had, seen)
                &&& modified_by(old, mid, ids.drop_last(), had)
            }
    }
}

/// The analysis was called on the classes of `ids`, and nothing else happened.
#[verifier::opaque]
pub open spec fn only_modified<L: Language, N: Analysis<L>>(
    old: &EGraph<L, N>,
    new: &EGraph<L, N>,
    ids: Seq<Id>,
) -> bool {
    exists|seen: Set<Id>| #[trigger] modified_by(old, new, ids, seen)
}

/// `ids` are the classes whose data waited for the analysis or changed.
pub open spec fn all_moved<L: Language, N: ClassData>(
    tidied: &EGraph<L, N>,
    spread: &EGraph<L, N>,
    ids: Seq<Id>,
) -> bool {
    forall|k: Id| #[trigger]
        ids.contains(k) <==> tidied.model().has(k) && tidied.model().root(k) == k && moved(
            tidied,
            spread,
            k,
        )
}

/// One pass of a rebuild: congruence was restored, data was carried on to
/// parents, and the analysis was called on the classes whose data waited or
/// changed. Nothing else happened.
pub open spec fn pass<L: Language, N: Analysis<L>>(
    old: &EGraph<L, N>,
    new: &EGraph<L, N>,
) -> bool {
    exists|tidied: &EGraph<L, N>, spread: &EGraph<L, N>, ids: Seq<Id>|
        {
            &&& #[trigger] only_modified(spread, new, ids)
            &&& #[trigger] spreads(tidied, spread)
            &&& repaired(old, tidied)
            &&& all_moved(tidied, spread, ids)
            &&& new.wf() && spread.grows_into(new)
            &&& forall|k: Id|
                #![trigger spread.class_data(k)]
                tidied.model().has(k) && moved(tidied, spread, k) ==> modify_ran(spread, new, k)
        }
}

/// `new` came out of `old` by `n` passes.
pub open spec fn passed<L: Language, N: Analysis<L>>(
    old: &EGraph<L, N>,
    new: &EGraph<L, N>,
    n: nat,
) -> bool
    decreases n,
{
    if n == 0 {
        *new == *old
    } else {
        exists|mid: &EGraph<L, N>| #[trigger]
            pass(mid, new) && mid.wf() && passed(old, mid, (n - 1) as nat)
    }
}

/// A rebuild is done: after some passes nothing waits for the analysis, and
/// congruence was restored once more.
pub open spec fn passes_done<L: Language, N: Analysis<L>>(
    old: &EGraph<L, N>,
    new: &EGraph<L, N>,
) -> bool {
    exists|last: &EGraph<L, N>, n: nat|
        {
            &&& #[trigger] passed(old, last, n)
            &&& last.wf() && repaired(last, new) && new.stale().len() == 0
        }
}

// ---------------------------------------------------------------------------
// Proofs.
// ---------------------------------------------------------------------------

/// Reading the same is transitive.
pub proof fn lemma_reads_trans<L: Language, N: ClassData>(
    a: &EGraph<L, N>,
    b: &EGraph<L, N>,
    c: &EGraph<L, N>,
)
    requires
        reads_same(a, b),
        reads_same(b, c),
    ensures
        reads_same(a, c),
{
    assert forall|id: Id|
        #![trigger c.class_data(id)]
        a.model().has(id) implies c.class_data(id) == a.class_data(id) by {
        assert(b.class_data(id) == a.class_data(id));
    }
}

/// A change that cannot be read is no merge.
pub proof fn lemma_congruence_quiet<L: Language, N: ClassData>(
    start: &EGraph<L, N>,
    now: &EGraph<L, N>,
    next: &EGraph<L, N>,
)
    requires
        only_congruence(start, now),
        reads_same(now, next),
    ensures
        only_congruence(start, next),
{
    reveal(only_congruence);
    let n = choose|n: nat| #[trigger] merged_up(start, now, n);
    if n == 0 {
        lemma_reads_trans(start, now, next);
        assert(merged_up(start, next, 0));
    } else {
        let (old, new, a, b, node) = choose|
            old: &EGraph<L, N>,
            new: &EGraph<L, N>,
            a: Id,
            b: Id,
            node: L,
        |
            {
                &&& #[trigger] congruence_step(start, old, new, a, b, node)
                &&& reads_same(new, now)
                &&& merged_up(start, old, (n - 1) as nat)
            };
        lemma_reads_trans(new, now, next);
        assert(congruence_step(start, old, new, a, b, node));
        assert(merged_up(start, next, n));
    }
}

/// No merge yet.
pub proof fn lemma_congruence_start<L: Language, N: ClassData>(start: &EGraph<L, N>)
    ensures
        only_congruence(start, start),
{
    reveal(only_congruence);
    assert(merged_up(start, start, 0));
}

/// One merge more.
pub proof fn lemma_congruence_more<L: Language, N: ClassData>(
    start: &EGraph<L, N>,
    old: &EGraph<L, N>,
    new: &EGraph<L, N>,
    a: Id,
    b: Id,
    node: L,
)
    requires
        only_congruence(start, old),
        congruence_step(start, old, new, a, b, node),
    ensures
        only_congruence(start, new),
{
    reveal(only_congruence);
    let n = choose|n: nat| #[trigger] merged_up(start, old, n);
    assert(reads_same(new, new));
    assert((n + 1 - 1) as nat == n);
    assert(merged_up(start, new, n + 1));
}

/// An entry stays traced while the graph grows.
pub proof fn lemma_traced_grows<L: Language, N: ClassData>(
    start: &EGraph<L, N>,
    now: &EGraph<L, N>,
    next: &EGraph<L, N>,
    entry: (L, Id),
)
    requires
        start.safe(),
        now.safe(),
        next.safe(),
        start.grows_into(now),
        now.grows_into(next),
        now.model().has(entry.1),
        entry_traced(start, now, entry),
    ensures
        entry_traced(start, next, entry),
{
    start.lemma_safe();
    super::instantiate::lemma_grows_models(start, now);
    super::instantiate::lemma_grows_models(now, next);
    let (k, e) = choose|k: int, e: int|
        #![trigger start.model().parents[k][e]]
        {
            &&& 0 <= k < start.model().len() && 0 <= e < start.model().parents[k].len()
            &&& now.model().root(start.model().parents[k][e].1) == now.model().root(entry.1)
            &&& start.model().parents[k][e].0 == entry.0 || was_form(
                start,
                now,
                start.model().parents[k][e].0,
                entry.0,
            )
        };
    let first = start.model().parents[k][e];
    assert(start.model().entry_ok(start.model().parents[k][e]));
    assert(now.model().roots[first.1.at()] == now.model().roots[entry.1.at()]);
    assert(next.model().roots[first.1.at()] == next.model().roots[entry.1.at()]);
    if first.0 != entry.0 {
        reveal(was_form);
        let prev = choose|prev: &EGraph<L, N>|
            {
                &&& #[trigger] prev.safe()
                &&& entry.0 == canon(prev.model().roots, first.0)
                &&& start.grows_into(prev)
                &&& prev.grows_into(now)
            };
        EGraph::lemma_grows_trans(prev, now, next);
        assert(prev.safe());
        assert(was_form(start, next, first.0, entry.0));
    }
}

/// The canonical form of a traced entry is traced.
pub proof fn lemma_traced_form<L: Language, N: ClassData>(
    start: &EGraph<L, N>,
    now: &EGraph<L, N>,
    entry: (L, Id),
)
    requires
        start.safe(),
        now.safe(),
        start.grows_into(now),
        now.model().entry_ok(entry),
        entry_traced(start, now, entry),
    ensures
        entry_traced(
            start,
            now,
            (canon(now.model().roots, entry.0), now.model().root(entry.1)),
        ),
{
    start.lemma_safe();
    now.lemma_safe();
    super::instantiate::lemma_grows_models(start, now);
    let m = now.model();
    let (k, e) = choose|k: int, e: int|
        #![trigger start.model().parents[k][e]]
        {
            &&& 0 <= k < start.model().len() && 0 <= e < start.model().parents[k].len()
            &&& now.model().root(start.model().parents[k][e].1) == now.model().root(entry.1)
            &&& start.model().parents[k][e].0 == entry.0 || was_form(
                start,
                now,
                start.model().parents[k][e].0,
                entry.0,
            )
        };
    let first = start.model().parents[k][e];
    assert(start.model().entry_ok(start.model().parents[k][e]));
    let form = canon(m.roots, entry.0);
    assert(form == canon(m.roots, first.0)) by {
        if first.0 != entry.0 {
            reveal(was_form);
            let prev = choose|prev: &EGraph<L, N>|
                {
                    &&& #[trigger] prev.safe()
                    &&& entry.0 == canon(prev.model().roots, first.0)
                    &&& start.grows_into(prev)
                    &&& prev.grows_into(now)
                };
            prev.lemma_safe();
            super::instantiate::lemma_grows_models(start, prev);
            super::instantiate::lemma_grows_models(prev, now);
            assert(in_range(prev.model().len(), first.0.kids()));
            lemma_canon_twice(prev.model().roots, first.0);
            lemma_canon_coarsens(prev.model().roots, m.roots, entry.0, first.0);
        }
    }
    assert(was_form(start, now, first.0, form)) by {
        reveal(was_form);
        super::rebuild::lemma_quiet_grows(now);
        assert(now.safe());
    }
    assert(m.root(m.root(entry.1)) == m.root(entry.1));
}

/// A change of data more.
pub proof fn lemma_carried_more<L: Language, N: Analysis<L>>(
    start: &EGraph<L, N>,
    old: &EGraph<L, N>,
    new: &EGraph<L, N>,
    c: int,
    e: int,
    data: N::Data,
)
    requires
        only_carried(start, old),
        data_step(old, new, c, e, data),
    ensures
        only_carried(start, new),
{
    reveal(only_carried);
    let n = choose|n: nat| #[trigger] carried_up(start, old, n);
    assert(same_data(new, new));
    assert((n + 1 - 1) as nat == n);
    assert(carried_up(start, new, n + 1));
}

/// What leaves the data alone is no change of it.
pub proof fn lemma_carried_quiet<L: Language, N: Analysis<L>>(
    start: &EGraph<L, N>,
    now: &EGraph<L, N>,
    next: &EGraph<L, N>,
)
    requires
        only_carried(start, now),
        same_data(now, next),
    ensures
        only_carried(start, next),
{
    reveal(only_carried);
    let n = choose|n: nat| #[trigger] carried_up(start, now, n);
    if n == 0 {
        lemma_data_trans(start, now, next);
        assert(carried_up(start, next, 0));
    } else {
        let (old, new, c, e, data) = choose|
            old: &EGraph<L, N>,
            new: &EGraph<L, N>,
            c: int,
            e: int,
            data: N::Data,
        |
            {
                &&& #[trigger] data_step(old, new, c, e, data)
                &&& same_data(new, now)
                &&& carried_up(start, old, (n - 1) as nat)
            };
        lemma_data_trans(new, now, next);
        assert(data_step(old, new, c, e, data));
        assert(carried_up(start, next, n));
    }
}

/// No change of data yet.
pub proof fn lemma_carried_start<L: Language, N: Analysis<L>>(
    start: &EGraph<L, N>,
    now: &EGraph<L, N>,
)
    requires
        same_data(start, now),
    ensures
        only_carried(start, now),
{
    reveal(only_carried);
    assert(carried_up(start, now, 0));
}

proof fn lemma_data_trans<L: Language, N: ClassData>(
    a: &EGraph<L, N>,
    b: &EGraph<L, N>,
    c: &EGraph<L, N>,
)
    requires
        same_data(a, b),
        same_data(b, c),
    ensures
        same_data(a, c),
{
    assert forall|id: Id|
        #![trigger c.class_data(id)]
        a.model().has(id) implies c.class_data(id) == a.class_data(id) by {
        assert(b.class_data(id) == a.class_data(id));
    }
}

} // verus!
