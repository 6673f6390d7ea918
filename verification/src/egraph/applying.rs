//! What it means to act upon matches, step by step.

use super::driving::{Hit, Verdict};
use super::forest::Reason;
use super::instantiate::only_added;
use super::labels::no_new_edges;
use super::graph::{add_done, merged_for, overlay};
use super::lang::{Id, Language};
use super::matching::Bound;
use super::meaning::is_handed;
use super::model::canon;
use super::rewrite::{Lhs, Pattern, Rewrite, Rhs, Subst};
use super::{Analysis, EGraph};
use vstd::prelude::*;

verus! {

// ---------------------------------------------------------------------------
// Templates.
// ---------------------------------------------------------------------------

/// `node` is in class `id`: of a class that held it, or of a new one of its own.
pub open spec fn added_as<L: Language, N: Analysis<L>>(
    old: &EGraph<L, N>,
    new: &EGraph<L, N>,
    node: L,
    id: Id,
) -> bool {
    match old.model().looked_up(node) {
        Some(known) => id == known && old.same(new),
        None => {
            let form = canon(old.model().roots, node);
            &&& old.room()
            &&& id == Id(old.model().len() as u32)
            &&& add_done(old, new, form)
            &&& N::made(old.kid_data(form), &form, &new.class_data(id))
        },
    }
}

/// `mid` lies on the way from `old` to `new`.
pub open spec fn leads<L: Language, N: Analysis<L>>(
    old: &EGraph<L, N>,
    mid: &EGraph<L, N>,
    new: &EGraph<L, N>,
) -> bool {
    mid.wf() && old.grows_into(mid) && mid.grows_into(new)
}

/// The term that `p` stands for under `s` was built up, node by node, and is in
/// class `id`.
pub open spec fn built<L: Language, N: Analysis<L>>(
    old: &EGraph<L, N>,
    new: &EGraph<L, N>,
    p: Pattern<L>,
    s: Bound,
    id: Id,
) -> bool
    decreases
            p,
            match p {
                Pattern::Var(_) => 0,
                Pattern::Op { node, children } => children@.len() + 1,
            },
{
    match p {
        Pattern::Var(name) => id == old.model().root(s[name@]) && old.same(new),
        Pattern::Op { node, children } => exists|mid: &EGraph<L, N>, ids: Seq<Id>|
            {
                &&& #[trigger] added_as(
                    mid,
                    new,
                    node.with_kids(overlay(node.kids(), ids)),
                    id,
                )
                &&& leads(old, mid, new)
                &&& kids_built(old, mid, p, s, children@.len(), ids)
            },
    }
}

/// The first `n` children of the pattern `p` were built up one after the other,
/// and are in the classes `ids`.
pub open spec fn kids_built<L: Language, N: Analysis<L>>(
    old: &EGraph<L, N>,
    new: &EGraph<L, N>,
    p: Pattern<L>,
    s: Bound,
    n: nat,
    ids: Seq<Id>,
) -> bool
    decreases p, n,
{
    match p {
        Pattern::Var(_) => false,
        Pattern::Op { node, children } => {
            &&& ids.len() == n
            &&& n <= children@.len()
            &&& if n == 0 {
                *new == *old
            } else if n <= children@.len() {
                exists|mid: &EGraph<L, N>|
                    {
                        &&& #[trigger] leads(old, mid, new)
                        &&& kids_built(old, mid, p, s, (n - 1) as nat, ids.drop_last())
                        &&& built(mid, new, children@[n - 1], s, ids.last())
                    }
            } else {
                false
            }
        },
    }
}

/// How many operators a pattern has.
pub open spec fn ops<L: Language>(p: Pattern<L>) -> nat
    decreases
            p,
            match p {
                Pattern::Var(_) => 0,
                Pattern::Op { node, children } => children@.len() + 1,
            },
{
    match p {
        Pattern::Var(_) => 0,
        Pattern::Op { node, children } => 1 + kid_ops(p, children@.len()),
    }
}

/// How many operators the first `n` children of a pattern have.
pub open spec fn kid_ops<L: Language>(p: Pattern<L>, n: nat) -> nat
    decreases p, n,
{
    match p {
        Pattern::Var(_) => 0,
        Pattern::Op { node, children } => if 0 < n <= children@.len() {
            kid_ops(p, (n - 1) as nat) + ops(children@[n - 1])
        } else {
            0
        },
    }
}

/// More children have no fewer operators.
pub proof fn lemma_kid_ops<L: Language>(p: Pattern<L>, n: nat, more: nat)
    requires
        p is Op,
        n <= more <= p->children@.len(),
    ensures
        kid_ops(p, n) <= kid_ops(p, more),
    decreases more,
{
    if n < more {
        lemma_kid_ops(p, n, (more - 1) as nat);
    }
}

// ---------------------------------------------------------------------------
// Matches.
// ---------------------------------------------------------------------------

/// The left-hand side of a match is in class `x`: a template is built up, a
/// dynamic matcher stands for the class it matched.
#[verifier::opaque]
pub open spec fn left_built<L: Language, N: Analysis<L>>(
    old: &EGraph<L, N>,
    new: &EGraph<L, N>,
    rule: Rewrite<L, N>,
    hit: Hit,
    x: Id,
) -> bool {
    match rule.lhs {
        Lhs::Pattern(p) => built(old, new, p, hit.1, x),
        Lhs::Dynamic(_) => x == old.model().root(hit.0) && old.same(new),
    }
}

/// The right-hand side of a match is in class `made`, if there is one: a
/// template is built up, an applier is called once.
#[verifier::opaque]
pub open spec fn right_made<L: Language, N: Analysis<L>>(
    old: &EGraph<L, N>,
    new: &EGraph<L, N>,
    rule: Rewrite<L, N>,
    hit: Hit,
    made: Option<Id>,
) -> bool {
    match rule.rhs {
        Rhs::Pattern(r) => made is Some && built(old, new, r, hit.1, made->0),
        Rhs::Dynamic(applier) => exists|subst: &Subst| #[trigger]
            applier.does(old, subst, new, made) && subst@ == hit.1,
        Rhs::DynamicNode(applier) => exists|subst: &Subst, node: L| #[trigger]
            applier.does(old, subst, &node, new, made) && subst@ == hit.1 && is_handed(
                old.model(),
                rule,
                hit.0,
                hit.1,
                node,
            ),
    }
}

/// The two sides of a match were merged under the name of the rule, unless they
/// were equal or there is no right-hand side.
#[verifier::opaque]
pub open spec fn sides_joined<L: Language, N: Analysis<L>>(
    old: &EGraph<L, N>,
    new: &EGraph<L, N>,
    rule: Rewrite<L, N>,
    x: Id,
    made: Option<Id>,
    merged: bool,
) -> bool {
    match made {
        Some(y) => if old.model().root(x) == old.model().root(y) {
            !merged && old.same(new)
        } else {
            &&& merged
            &&& merged_for(old, new, x, y, Reason::Rule(rule.name@))
            &&& new.reason() == Reason::Rule("congruence"@)
        },
        None => !merged && *new == *old,
    }
}

/// The match `hit` of the rule was acted upon, and nothing else happened.
/// `merged` says whether its two sides were merged.
#[verifier::opaque]
pub open spec fn apply_step<L: Language, N: Analysis<L>>(
    old: &EGraph<L, N>,
    new: &EGraph<L, N>,
    rule: Rewrite<L, N>,
    hit: Hit,
    merged: bool,
) -> bool {
    exists|left: &EGraph<L, N>, right: &EGraph<L, N>, x: Id, made: Option<Id>|
        {
            &&& #[trigger] right_made(left, right, rule, hit, made)
            &&& #[trigger] sides_joined(right, new, rule, x, made, merged)
            &&& left_built(old, left, rule, hit, x)
            &&& leads(old, left, right)
            &&& leads(old, right, new)
            &&& right.model().has(x)
            &&& made is Some ==> right.model().has(made->0)
        }
}

/// Acting upon a match of the rule was given up because all ids are in use:
/// parts of its templates were added, and nothing else happened.
#[verifier::opaque]
pub open spec fn given_up<L: Language, N: Analysis<L>>(
    old: &EGraph<L, N>,
    new: &EGraph<L, N>,
    rule: Rewrite<L, N>,
) -> bool {
    &&& !new.room()
    &&& only_added(old.model(), new.model())
    &&& no_new_edges(old.edges(), new.edges())
    &&& new.reason() == old.reason()
    &&& new.model().len() <= old.model().len() + rule_ops(rule)
}

/// The matches `hits`, each with the number of its rule, were acted upon one
/// after the other, and nothing else happened. `n` of them merged their sides.
pub open spec fn applied_all<L: Language, N: Analysis<L>>(
    old: &EGraph<L, N>,
    new: &EGraph<L, N>,
    rules: Seq<Rewrite<L, N>>,
    hits: Seq<(int, Hit)>,
    n: nat,
) -> bool
    decreases hits.len(),
{
    if hits.len() == 0 {
        *new == *old && n == 0
    } else {
        exists|mid: &EGraph<L, N>, merged: bool|
            {
                &&& #[trigger] apply_step(
                    mid,
                    new,
                    rules[hits.last().0],
                    hits.last().1,
                    merged,
                )
                &&& leads(old, mid, new)
                &&& merged ==> n > 0
                &&& applied_all(
                    old,
                    mid,
                    rules,
                    hits.drop_last(),
                    if merged {
                        (n - 1) as nat
                    } else {
                        n
                    },
                )
            }
    }
}

/// The same, as a statement on its own.
#[verifier::opaque]
pub open spec fn only_applied<L: Language, N: Analysis<L>>(
    old: &EGraph<L, N>,
    new: &EGraph<L, N>,
    rules: Seq<Rewrite<L, N>>,
    hits: Seq<(int, Hit)>,
    n: nat,
) -> bool {
    applied_all(old, new, rules, hits, n)
}

/// The matches of one rule, with its number.
pub open spec fn tagged(i: int, kept: Seq<Hit>) -> Seq<(int, Hit)> {
    Seq::new(kept.len(), |j: int| (i, kept[j]))
}

/// All matches that were kept, rule by rule, each with the number of its rule.
pub open spec fn all_hits(verdicts: Seq<Verdict>) -> Seq<(int, Hit)>
    decreases verdicts.len(),
{
    if verdicts.len() == 0 {
        Seq::empty()
    } else {
        let first = all_hits(verdicts.drop_last());
        match verdicts.last() {
            Some(kept) => first + tagged(verdicts.len() - 1, kept),
            None => first,
        }
    }
}

/// How many operators the two sides of a rule have at most.
pub open spec fn rule_ops<L: Language, N: Analysis<L>>(rule: Rewrite<L, N>) -> nat {
    (match rule.lhs {
        Lhs::Pattern(p) => ops(p),
        Lhs::Dynamic(_) => 0,
    }) + (match rule.rhs {
        Rhs::Pattern(r) => ops(r),
        _ => 0,
    })
}

/// How many operators the sides of the rules have, counted once per match.
pub open spec fn hit_ops<L: Language, N: Analysis<L>>(
    rules: Seq<Rewrite<L, N>>,
    hits: Seq<(int, Hit)>,
) -> nat
    decreases hits.len(),
{
    if hits.len() == 0 {
        0
    } else {
        hit_ops(rules, hits.drop_last()) + rule_ops(rules[hits.last().0])
    }
}

/// Fewer matches have fewer operators.
pub proof fn lemma_hit_ops<L: Language, N: Analysis<L>>(
    rules: Seq<Rewrite<L, N>>,
    hits: Seq<(int, Hit)>,
    k: int,
)
    requires
        0 <= k <= hits.len(),
    ensures
        hit_ops(rules, hits.take(k)) <= hit_ops(rules, hits),
    decreases hits.len(),
{
    if k == hits.len() {
        assert(hits.take(k) =~= hits);
    } else {
        lemma_hit_ops(rules, hits.drop_last(), k);
        assert(hits.drop_last().take(k) =~= hits.take(k));
    }
}

/// A match that is acted upon belongs to a rule that was enabled, and was found
/// and kept: a disabled rule does nothing.
pub proof fn law_only_enabled_rules_act(verdicts: Seq<Verdict>, k: int)
    requires
        0 <= k < all_hits(verdicts).len(),
    ensures
        ({
            let (i, hit) = all_hits(verdicts)[k];
            0 <= i < verdicts.len() && verdicts[i] is Some && verdicts[i]->0.contains(hit)
        }),
    decreases verdicts.len(),
{
    if verdicts.len() > 0 {
        let rest = verdicts.drop_last();
        let first = all_hits(rest);
        if k < first.len() {
            law_only_enabled_rules_act(rest, k);
            assert(all_hits(verdicts)[k] == first[k]);
        } else {
            let kept = verdicts.last()->0;
            let j = k - first.len();
            assert(all_hits(verdicts)[k] == (verdicts.len() - 1, kept[j]));
        }
    }
}

/// Acting upon no match changes nothing.
pub proof fn lemma_applied_start<L: Language, N: Analysis<L>>(
    egraph: &EGraph<L, N>,
    rules: Seq<Rewrite<L, N>>,
    hits: Seq<(int, Hit)>,
)
    requires
        hits.len() == 0,
    ensures
        only_applied(egraph, egraph, rules, hits, 0),
{
    reveal(only_applied);
}

/// One match more.
pub proof fn lemma_applied_more<L: Language, N: Analysis<L>>(
    old: &EGraph<L, N>,
    mid: &EGraph<L, N>,
    new: &EGraph<L, N>,
    rules: Seq<Rewrite<L, N>>,
    hits: Seq<(int, Hit)>,
    hit: (int, Hit),
    n: nat,
    merged: bool,
)
    requires
        only_applied(old, mid, rules, hits, n),
        leads(old, mid, new),
        apply_step(mid, new, rules[hit.0], hit.1, merged),
    ensures
        only_applied(
            old,
            new,
            rules,
            hits.push(hit),
            n + if merged {
                1nat
            } else {
                0
            },
        ),
{
    reveal(only_applied);
    let more = hits.push(hit);
    assert(more.drop_last() =~= hits && more.last() == hit);
    let total = n + if merged {
        1nat
    } else {
        0
    };
    assert(apply_step(mid, new, rules[more.last().0], more.last().1, merged));
    assert((n + 1 - 1) as nat == n);
}

} // verus!
