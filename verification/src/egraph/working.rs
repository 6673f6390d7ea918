//! What a run of equality saturation does, rule by rule and class by class.

use super::applying::{
    all_hits, apply_step, leads, left_built, only_applied, right_made, sides_joined, tagged,
};
use super::closure::{is_canonical, tidy};
use super::config::RunConfig;
use super::driving::{
    acted_upon, below_cap, calmed, class_hits, class_kept, consulted, driven, handled, hits_of,
    kept_hits, law_cap, law_sifted, round, sifted, Hit, Verdict,
};
use super::forest::{with_edge, Reason};
use super::freshness::{caught_up, made_by_operator, queued, up_to_date};
use super::instantiate::lemma_grows_models;
use super::invariants::{law_tidy_is_valid, listed_at, parents_complete};
use super::lang::{Id, Language};
use super::matching::{matches_of, stands_for, Bound};
use super::model::{canon, canon_ids, lemma_canon_eq};
use super::readers::ids_below;
use super::passes::{all_moved, moved, only_modified, pass, repaired, spreads};
use super::rebuild::{all_caught_up, modify_called, modify_ran};
use super::rewrite::Rewrite;
use super::saturate::{
    acted, is_left_side, match_done, match_settled, must_pass, realized, right_side_in, rule_did,
    rule_says, saturated, stop_text, went, StopReason,
};
use super::scheduler::RewriteScheduler;
use super::{Analysis, ClassData, EGraph};
use crate::text::{decimal, lemma_pieces};
use vstd::prelude::*;

verus! {

// ---------------------------------------------------------------------------
// Matches.
// ---------------------------------------------------------------------------

/// The matches that are acted upon in an iteration are all that were kept, rule
/// by rule and in their order, each with the number of its rule.
pub proof fn law_all_hits_in_order(verdicts: Seq<Verdict>)
    ensures
        all_hits(verdicts) == Seq::new(
            verdicts.len(),
            |i: int|
                match verdicts[i] {
                    Some(kept) => kept.map_values(|hit: Hit| (i, hit)),
                    None => Seq::empty(),
                },
        ).flatten(),
    decreases verdicts.len(),
{
    let piece = |i: int|
        match verdicts[i] {
            Some(kept) => kept.map_values(|hit: Hit| (i, hit)),
            None => Seq::empty(),
        };
    if verdicts.len() == 0 {
        assert(Seq::new(0, piece).flatten() =~= Seq::empty());
    } else {
        let rest = verdicts.drop_last();
        let n = rest.len();
        law_all_hits_in_order(rest);
        assert(Seq::new(n, piece) =~= Seq::new(
            n,
            |i: int|
                match rest[i] {
                    Some(kept) => kept.map_values(|hit: Hit| (i, hit)),
                    None => Seq::empty(),
                },
        ));
        lemma_pieces(n, piece);
        match verdicts.last() {
            Some(kept) => {
                assert(tagged(verdicts.len() - 1, kept) =~= piece(n as int));
            },
            None => {
                assert(all_hits(rest) + piece(n as int) =~= all_hits(rest));
            },
        }
    }
}

/// The matches of an unguarded rule with a static left-hand side are all that
/// matching finds, class by class in the order of their ids, and no others.
pub proof fn law_all_matches_kept<L: Language, N: ClassData>(
    egraph: &EGraph<L, N>,
    rule: Rewrite<L, N>,
    n: nat,
    kept: Seq<Hit>,
)
    requires
        rule.lhs is Pattern,
        rule.condition is None,
        n <= egraph.model().roots.len() <= u32::MAX + 1,
        kept_hits(egraph, rule, n, kept),
    ensures
        kept == ids_below(egraph.model(), n).map_values(
            |id: Id|
                matches_of(egraph.model(), rule.lhs->Pattern_0, id, Map::empty()).map_values(
                    |s: Bound| (id, s.insert("$lhs"@, id)),
                ),
        ).flatten(),
    decreases n,
{
    let m = egraph.model();
    let p = rule.lhs->Pattern_0;
    let found = |id: Id|
        matches_of(m, p, id, Map::empty()).map_values(|s: Bound| (id, s.insert("$lhs"@, id)));
    let own = |id: Id| m.roots[id.at()] == id;
    let ids = ids_below(m, n);
    reveal(Seq::filter);
    let all = Seq::new(n, |i: int| Id(i as u32));
    if n == 0 {
        assert(ids.map_values(found).flatten() =~= Seq::empty());
        assert(kept =~= Seq::empty());
    } else {
        let less = (n - 1) as nat;
        let id = Id((n - 1) as u32);
        let some = ids_below(m, less);
        assert(all.drop_last() =~= Seq::new(less, |i: int| Id(i as u32)));
        assert(all.last() == id);
        if m.root(id) == id {
            assert(own(id));
            assert(ids == some.push(id));
            let cut = choose|cut: int|
                {
                    &&& 0 <= cut <= kept.len()
                    &&& #[trigger] class_kept(egraph, rule, id, kept.skip(cut))
                    &&& kept_hits(egraph, rule, (n - 1) as nat, kept.take(cut))
                };
            law_all_matches_kept(egraph, rule, less, kept.take(cut));
            let hits = choose|hits: Seq<Hit>| #[trigger]
                sifted(egraph, rule, hits, kept.skip(cut)) && class_hits(egraph, rule, id, hits);
            law_sifted(egraph, rule, hits, kept.skip(cut));
            assert(hits == hits_of(id, matches_of(m, p, id, Map::empty())));
            assert(hits =~= found(id));
            some.map_values(found).lemma_flatten_push(found(id));
            assert(ids.map_values(found) =~= some.map_values(found).push(found(id)));
            assert(kept =~= kept.take(cut) + kept.skip(cut));
        } else {
            assert(!own(id));
            assert(ids == some);
            law_all_matches_kept(egraph, rule, less, kept);
        }
    }
}

// ---------------------------------------------------------------------------
// Steps.
// ---------------------------------------------------------------------------

/// What a rule makes equal is recorded under the name of the rule: where acting
/// upon a match merges its two sides, the edge between them is the last that is
/// added, and two different classes become one.
pub proof fn law_rule_step_is_labelled<L: Language, N: Analysis<L>>(
    old: &EGraph<L, N>,
    new: &EGraph<L, N>,
    rule: Rewrite<L, N>,
    hit: Hit,
)
    requires
        apply_step(old, new, rule, hit, true),
    ensures
        exists|right: &EGraph<L, N>, x: Id, y: Id|
            {
                &&& #[trigger] with_edge(right.edges(), x, y, Reason::Rule(rule.name@))
                    == new.edges()
                &&& right.wf() && old.grows_into(right)
                &&& right.model().root(x) != right.model().root(y)
                &&& right_made_some(old, right, rule, hit, x, y)
            },
{
    reveal(apply_step);
    reveal(sides_joined);
    let (left, right, x, made) = choose|
        left: &EGraph<L, N>,
        right: &EGraph<L, N>,
        x: Id,
        made: Option<Id>,
    |
        {
            &&& #[trigger] right_made(left, right, rule, hit, made)
            &&& #[trigger] sides_joined(right, new, rule, x, made, true)
            &&& left_built(old, left, rule, hit, x)
            &&& leads(old, left, right)
            &&& leads(old, right, new)
            &&& right.model().has(x)
            &&& made is Some ==> right.model().has(made->0)
        };
    let y = made->0;
    assert(right_made(left, right, rule, hit, Some(y)));
    assert(right_made_some(old, right, rule, hit, x, y));
    assert(with_edge(right.edges(), x, y, Reason::Rule(rule.name@)) == new.edges());
}

/// The graph `right` has the left-hand side of the match in `x` and its
/// right-hand side in `y`.
pub open spec fn right_made_some<L: Language, N: Analysis<L>>(
    old: &EGraph<L, N>,
    right: &EGraph<L, N>,
    rule: Rewrite<L, N>,
    hit: Hit,
    x: Id,
    y: Id,
) -> bool {
    exists|left: &EGraph<L, N>| #[trigger]
        right_made(left, right, rule, hit, Some(y)) && left_built(old, left, rule, hit, x)
}

// ---------------------------------------------------------------------------
// The end of a run.
// ---------------------------------------------------------------------------

/// A run says that it saturated only after an iteration in which no rule was
/// disabled and no match merged its sides. All iterations before that one either
/// merged something or left out a rule.
pub proof fn law_saturation_is_quiet<L: Language, N: Analysis<L>, S: RewriteScheduler<L, N>>(
    old: &EGraph<L, N>,
    new: &EGraph<L, N>,
    before: &S,
    after: &S,
    rules: Seq<Rewrite<L, N>>,
    config: RunConfig,
    iterations: usize,
)
    requires
        went(old, new, before, after, rules, config, StopReason::Saturated { iterations }),
    ensures
        0 < iterations <= config.max_iters,
        exists|start: &EGraph<L, N>, between: &S, end: &EGraph<L, N>, verdicts: Seq<Verdict>|
            {
                &&& #[trigger] consulted(
                    start,
                    rules,
                    (iterations - 1) as usize,
                    between,
                    after,
                    verdicts,
                )
                &&& #[trigger] only_applied(start, end, rules, all_hits(verdicts), 0)
                &&& verdicts.len() == rules.len()
                &&& forall|i: int| 0 <= i < verdicts.len() ==> #[trigger] verdicts[i] is Some
                &&& driven(old, start, before, between, rules, config, (iterations - 1) as nat)
            },
{
    let n = (iterations - 1) as nat;
    assert(calmed(old, new, before, after, rules, config, n));
    let (mid, between) = choose|mid: &EGraph<L, N>, between: &S|
        {
            &&& #[trigger] round(mid, new, between, after, rules, n as usize, true)
            &&& mid.wf()
            &&& below_cap(mid.model(), config.node_limit)
            &&& driven(old, mid, before, between, rules, config, n)
        };
    reveal(round);
    let verdicts = choose|verdicts: Seq<Verdict>|
        {
            &&& #[trigger] consulted(mid, rules, n as usize, between, after, verdicts)
            &&& verdicts.len() == rules.len()
            &&& acted_upon(mid, new, rules, verdicts, true)
        };
    let (end, merges) = choose|end: &EGraph<L, N>, merges: nat|
        {
            &&& #[trigger] only_applied(mid, end, rules, all_hits(verdicts), merges)
            &&& true <==> merges == 0 && forall|i: int|
                #![trigger verdicts[i]]
                0 <= i < verdicts.len() ==> verdicts[i] is Some
        };
    assert(only_applied(mid, end, rules, all_hits(verdicts), 0));
    assert(n as usize == (iterations - 1) as usize);
}

/// What is reported at the end of a run names the number of iterations or the
/// limit that was met.
pub proof fn law_end_is_told(iterations: usize, limit: usize)
    ensures
        stop_text(StopReason::Saturated { iterations }) == "Saturated after "@ + decimal(
            iterations as nat,
        ) + " iteration(s)."@,
        stop_text(StopReason::NodeLimit { limit, iterations }) == "Stopped at node limit ("@
            + decimal(limit as nat) + ") after "@ + decimal(iterations as nat)
            + " iteration(s)."@,
        stop_text(StopReason::IterationLimit { limit }) == "Stopped at iteration limit ("@
            + decimal(limit as nat) + ")."@,
        stop_text(StopReason::OutOfIds { iterations }) == "Out of ids after "@ + decimal(
            iterations as nat,
        ) + " iteration(s)."@,
{
}

// ---------------------------------------------------------------------------
// Rebuilt graphs.
// ---------------------------------------------------------------------------

/// After a rebuild nothing waits for repair, every child of an e-node is a
/// canonical id, and no class lists an e-node twice.
pub proof fn law_tidy_means<L: Language, N: ClassData>(egraph: &EGraph<L, N>, k: int, a: int, b: int)
    requires
        egraph.wf(),
        tidy(egraph.model()),
        0 <= k < egraph.model().len(),
        0 <= a < egraph.model().nodes[k].len(),
        0 <= b < egraph.model().nodes[k].len(),
    ensures
        egraph.model().pending.len() == 0,
        egraph.model().nodes[k][a] == egraph.model().nodes[k][b] ==> a == b,
        forall|j: int|
            #![trigger egraph.model().nodes[k][a].kids()[j]]
            0 <= j < egraph.model().nodes[k][a].kids().len()
                ==> egraph.model().roots[egraph.model().nodes[k][a].kids()[j].at()]
                == egraph.model().nodes[k][a].kids()[j],
{
    let m = egraph.model();
    assert(m.nodes[k].no_duplicates());
    assert(is_canonical(m.roots, m.nodes[k][a]));
    assert forall|j: int|
        #![trigger m.nodes[k][a].kids()[j]]
        0 <= j < m.nodes[k][a].kids().len() implies m.roots[m.nodes[k][a].kids()[j].at()]
        == m.nodes[k][a].kids()[j] by {
        assert(canon_ids(m.roots, m.nodes[k][a].kids())[j] == m.nodes[k][a].kids()[j]);
    }
}

/// What the analysis knows of a class reaches all that is built on it: once the
/// parents of some classes are up to date in a rebuilt graph, every e-node with a
/// child in one of them is, and the data of its class covers what `make`
/// computes for it from the data of its children.
pub proof fn law_data_reaches_parents<L: Language, N: Analysis<L>>(
    egraph: &EGraph<L, N>,
    list: Seq<Id>,
    i: int,
    k: int,
    a: int,
    j: int,
)
    requires
        egraph.wf(),
        tidy(egraph.model()),
        made_by_operator::<L, N>(),
        all_caught_up(egraph, list),
        0 <= i < list.len(),
        egraph.model().has(list[i]),
        0 <= k < egraph.model().len(),
        0 <= a < egraph.model().nodes[k].len(),
        0 <= j < egraph.model().nodes[k][a].kids().len(),
        egraph.model().root(egraph.model().nodes[k][a].kids()[j]) == egraph.model().root(list[i]),
    ensures
        exists|data: N::Data|
            {
                &&& N::made(
                    egraph.model().nodes[k][a].kids().map_values(
                        |kid: Id| egraph.class_data(egraph.model().roots[kid.at()]),
                    ),
                    &egraph.model().nodes[k][a],
                    &data,
                )
                &&& #[trigger] N::covers(&egraph.class_data(Id(k as u32)), &data)
            },
{
    egraph.lemma_safe();
    law_tidy_is_valid(egraph);
    let m = egraph.model();
    let node = m.nodes[k][a];
    let home = m.root(list[i]);
    assert(m.root(m.nodes[k][a].kids()[j]) == home);
    assert(parents_complete(m));
    assert(listed_at(m, k, a, j));
    let e = choose|e: int|
        0 <= e < m.parents[home.at()].len() && canon(
            m.roots,
            (#[trigger] m.parents[home.at()][e]).0,
        ) == canon(m.roots, node) && m.roots[m.parents[home.at()][e].1.at()] == Id(k as u32);
    let (twin, owner) = m.parents[home.at()][e];
    assert(caught_up(egraph, home));
    assert(up_to_date(egraph, m.parents[home.at()][e].0, m.parents[home.at()][e].1));
    let data = choose|data: N::Data| #[trigger]
        N::made(egraph.kid_data(twin), &twin, &data) && N::covers(
            &egraph.class_data(m.root(owner)),
            &data,
        );
    lemma_canon_eq(m.roots, twin, node);
    assert(twin.same_op(&node));
    assert(canon_ids(m.roots, twin.kids()) == canon_ids(m.roots, node.kids()));
    let parts = node.kids().map_values(|kid: Id| egraph.class_data(m.roots[kid.at()]));
    assert(twin.kids().len() == canon_ids(m.roots, twin.kids()).len());
    assert(node.kids().len() == canon_ids(m.roots, node.kids()).len());
    assert(egraph.kid_data(twin) =~= parts) by {
        assert forall|x: int| 0 <= x < parts.len() implies egraph.kid_data(twin)[x]
            == parts[x] by {
            assert(canon_ids(m.roots, twin.kids())[x] == canon_ids(m.roots, node.kids())[x]);
        }
    }
    assert(N::made(parts, &node, &data));
}

/// Iterations are numbered from 0 on and follow one another: each one starts
/// where the one before ended, and below the node cap, and unless it is the last
/// of a run that saturates it merged something or left out a rule.
pub proof fn law_iterations_follow<L: Language, N: Analysis<L>, S: RewriteScheduler<L, N>>(
    old: &EGraph<L, N>,
    new: &EGraph<L, N>,
    before: &S,
    after: &S,
    rules: Seq<Rewrite<L, N>>,
    config: RunConfig,
    n: nat,
)
    requires
        driven(old, new, before, after, rules, config, n),
    ensures
        n == 0 ==> *new == *old && *after == *before,
        n > 0 ==> exists|
            start: &EGraph<L, N>,
            between: &S,
            end: &EGraph<L, N>,
            verdicts: Seq<Verdict>,
            merges: nat,
        |
            {
                &&& driven(old, start, before, between, rules, config, (n - 1) as nat)
                &&& config.node_limit is Some ==> start.model().nodes.flatten().len()
                    < config.node_limit->0
                &&& #[trigger] consulted(start, rules, (n - 1) as usize, between, after, verdicts)
                &&& #[trigger] only_applied(start, end, rules, all_hits(verdicts), merges)
                &&& verdicts.len() == rules.len()
                &&& merges > 0 || exists|i: int|
                    #![trigger verdicts[i]]
                    0 <= i < verdicts.len() && verdicts[i] is None
            },
{
    if n > 0 {
        let iter = (n - 1) as usize;
        let (mid, between) = choose|mid: &EGraph<L, N>, between: &S|
            {
                &&& #[trigger] round(mid, new, between, after, rules, iter, false)
                &&& mid.wf()
                &&& below_cap(mid.model(), config.node_limit)
                &&& driven(old, mid, before, between, rules, config, (n - 1) as nat)
            };
        mid.lemma_safe();
        if let Some(limit) = config.node_limit {
            law_cap(mid.model(), limit);
        }
        reveal(round);
        let verdicts = choose|verdicts: Seq<Verdict>|
            {
                &&& #[trigger] consulted(mid, rules, iter, between, after, verdicts)
                &&& verdicts.len() == rules.len()
                &&& acted_upon(mid, new, rules, verdicts, false)
            };
        let (end, merges) = choose|end: &EGraph<L, N>, merges: nat|
            {
                &&& #[trigger] only_applied(mid, end, rules, all_hits(verdicts), merges)
                &&& false <==> merges == 0 && forall|i: int|
                    #![trigger verdicts[i]]
                    0 <= i < verdicts.len() ==> verdicts[i] is Some
            };
        assert(only_applied(mid, end, rules, all_hits(verdicts), merges));
        assert(consulted(mid, rules, (n - 1) as usize, between, after, verdicts));
    }
}

/// In an iteration the rules are handled in their order, each once and under its
/// own number. The scheduler is asked about a rule under its name; a rule that it
/// enables is matched, and the scheduler is told how many matches were kept.
pub proof fn law_rules_take_turns<L: Language, N: ClassData, S: RewriteScheduler<L, N>>(
    egraph: &EGraph<L, N>,
    rules: Seq<Rewrite<L, N>>,
    iter: usize,
    before: &S,
    after: &S,
    verdicts: Seq<Verdict>,
)
    requires
        0 < verdicts.len() <= rules.len() <= usize::MAX,
        consulted(egraph, rules, iter, before, after, verdicts),
    ensures
        ({
            let i = verdicts.len() - 1;
            let name = rules[i].name@;
            exists|start: &S, asked: &S, enabled: bool|
                {
                    &&& #[trigger] start.answers(iter, i as usize, name, enabled, asked)
                    &&& consulted(egraph, rules, iter, before, start, verdicts.drop_last())
                    &&& enabled <==> verdicts[i] is Some
                    &&& enabled ==> kept_hits(
                        egraph,
                        rules[i],
                        egraph.model().len(),
                        verdicts[i]->0,
                    ) && asked.told(iter, i as usize, name, verdicts[i]->0.len() as usize, after)
                    &&& !enabled ==> *asked == *after
                }
        }),
{
    let i = verdicts.len() - 1;
    let name = rules[i].name@;
    let mid = choose|mid: &S|
        {
            &&& #[trigger] handled(egraph, rules[i], iter, i as usize, mid, after, verdicts.last())
            &&& consulted(egraph, rules, iter, before, mid, verdicts.drop_last())
        };
    match verdicts.last() {
        Some(kept) => {
            let asked = choose|asked: &S|
                {
                    &&& #[trigger] mid.answers(iter, i as usize, name, true, asked)
                    &&& kept.len() <= usize::MAX
                    &&& kept_hits(egraph, rules[i], egraph.model().len(), kept)
                    &&& asked.told(iter, i as usize, name, kept.len() as usize, after)
                };
            assert(mid.answers(iter, i as usize, name, true, asked));
        },
        None => {
            assert(mid.answers(iter, i as usize, name, false, after));
        },
    }
}

/// A run that made an iteration with all rules acted upon every match that there
/// was at its start: for an unguarded rule of two patterns, the graph then has a
/// class that stands for both sides of the rule under the bindings of the match.
pub proof fn law_every_match_is_realized<L: Language, N: ClassData>(
    old: &EGraph<L, N>,
    new: &EGraph<L, N>,
    rules: Seq<Rewrite<L, N>>,
    i: int,
    id: Id,
    s: Bound,
)
    requires
        realized(old, new, rules),
        0 <= i < rules.len(),
        rules[i].lhs is Pattern,
        rules[i].rhs is Pattern,
        rules[i].condition is None,
        old.model().has(id),
        old.model().root(id) == id,
        matches_of(old.model(), rules[i].lhs->Pattern_0, id, Map::empty()).contains(s),
    ensures
        exists|x: Id|
            {
                &&& new.model().has(x)
                &&& #[trigger] stands_for(
                    new.model(),
                    x,
                    rules[i].lhs->Pattern_0,
                    s.insert("$lhs"@, id),
                )
                &&& stands_for(new.model(), x, rules[i].rhs->Pattern_0, s.insert("$lhs"@, id))
            },
{
    let rule = rules[i];
    let t = s.insert("$lhs"@, id);
    assert(rule_did(old, new, rules[i], id));
    assert(match_done(old, new, rule, id, s));
    assert(must_pass(rule, old, t));
    assert(acted(old, new, rule, id, t));
    let x = choose|x: Id| #[trigger]
        is_left_side(new.model(), rule, id, x, t) && right_side_in(old, new, rule, id, x, t);
    assert(stands_for(new.model(), x, rule.lhs->Pattern_0, t));
}

/// In a saturated graph an unguarded rule of two patterns has nothing left to
/// say: whatever class matches its left-hand side stands for its right-hand side
/// under the same bindings.
pub proof fn law_saturated_means<L: Language, N: ClassData>(
    egraph: &EGraph<L, N>,
    rules: Seq<Rewrite<L, N>>,
    i: int,
    id: Id,
    s: Bound,
)
    requires
        saturated(egraph, rules),
        0 <= i < rules.len(),
        rules[i].lhs is Pattern,
        rules[i].rhs is Pattern,
        rules[i].condition is None,
        egraph.model().has(id),
        egraph.model().root(id) == id,
        matches_of(egraph.model(), rules[i].lhs->Pattern_0, id, Map::empty()).contains(s),
    ensures
        stands_for(egraph.model(), id, rules[i].rhs->Pattern_0, s.insert("$lhs"@, id)),
{
    assert(rule_says(egraph, rules[i], id));
    assert(match_settled(egraph, rules[i], id, s));
    assert(must_pass(rules[i], egraph, s.insert("$lhs"@, id)));
}

/// A pass of a rebuild lets the analysis react to all that waits for it: for
/// every class that was put down for it, `modify` is called on that class, or on
/// one that it becomes equal to.
pub proof fn law_analysis_reacts<L: Language, N: Analysis<L>>(
    old: &EGraph<L, N>,
    new: &EGraph<L, N>,
    i: int,
)
    requires
        old.wf(),
        pass(old, new),
        0 <= i < old.stale().len(),
    ensures
        exists|found: &EGraph<L, N>, id: Id, after: &EGraph<L, N>|
            {
                &&& #[trigger] N::modified(found, id, after)
                &&& found.wf() && after.grows_into(new)
                &&& new.model().has(id)
                &&& new.model().root(id) == new.model().root(old.stale()[i])
            },
{
    old.lemma_safe();
    let (tidied, spread, ids) = choose|
        tidied: &EGraph<L, N>,
        spread: &EGraph<L, N>,
        ids: Seq<Id>,
    |
        {
            &&& #[trigger] only_modified(spread, new, ids)
            &&& #[trigger] spreads(tidied, spread)
            &&& repaired(old, tidied)
            &&& all_moved(tidied, spread, ids)
            &&& new.wf() && spread.grows_into(new)
            &&& forall|k: Id|
                #![trigger spread.class_data(k)]
                tidied.model().has(k) && moved(tidied, spread, k) ==> modify_ran(spread, new, k)
        };
    tidied.lemma_safe();
    lemma_grows_models(spread, new);
    let (raw, m, n) = (old.stale()[i], tidied.model(), new.model());
    assert(m.has(raw));
    let k = m.root(raw);
    assert(m.roots[raw.at()] == k && m.roots[k.at()] == k);
    assert(tidied.stale()[i] == raw);
    assert(queued(m.roots, tidied.stale(), k));
    assert(m.has(k));
    assert(moved(tidied, spread, k));
    assert(modify_ran(spread, new, k)) by {
        if spread.class_data(k) != tidied.class_data(k) {
        }
    }
    let id = choose|id: Id| #[trigger]
        modify_called(spread, new, id) && n.has(id) && n.root(id) == n.root(k);
    reveal(modify_called);
    assert(spread.model().roots[raw.at()] == spread.model().roots[k.at()]);
    assert(n.roots[raw.at()] == n.roots[k.at()]);
}

} // verus!
