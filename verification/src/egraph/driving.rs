//! What happens during a run of equality saturation, iteration by iteration.

use super::applying::{all_hits, given_up, hit_ops, leads, only_applied};
use super::closure::tidy;
use super::config::RunConfig;
use super::growth::sprung;
use super::labels::{edges_by_rules, rule_edge_added};
use super::lang::{Id, Language};
use super::matching::{bounds, matches_of, Bound};
use super::model::Model;
use super::passes::passes_done;
use super::readers::node_count;
use super::rebuild::edges_by_congruence;
use super::rewrite::{Lhs, Rewrite, Subst, MATCHED_LHS};
use super::saturate::acted;
use super::scheduler::RewriteScheduler;
use super::{Analysis, ClassData, EGraph};
use vstd::prelude::*;

verus! {

/// A match: the class, and the bindings that the parts of the rule get, the
/// matched class among them.
pub type Hit = (Id, Bound);

/// The matches in class `id` for a list of bindings.
pub open spec fn hits_of(id: Id, found: Seq<Bound>) -> Seq<Hit> {
    Seq::new(found.len(), |i: int| (id, found[i].insert(MATCHED_LHS@, id)))
}

/// The left-hand side of the rule may find these matches in class `id`.
pub open spec fn class_hits<L: Language, N: ClassData>(
    egraph: &EGraph<L, N>,
    rule: Rewrite<L, N>,
    id: Id,
    hits: Seq<Hit>,
) -> bool {
    match rule.lhs {
        Lhs::Pattern(p) => hits == hits_of(id, matches_of(egraph.model(), p, id, Map::empty())),
        Lhs::Dynamic(matcher) => exists|substs: &Vec<Subst>| #[trigger]
            matcher.finds(egraph, id, substs) && hits == hits_of(id, bounds(substs@)),
    }
}

/// The guard of the rule may answer `yes` for a match that binds `s`.
pub open spec fn may_say<L: Language, N: ClassData>(
    egraph: &EGraph<L, N>,
    rule: Rewrite<L, N>,
    s: Bound,
    yes: bool,
) -> bool {
    match rule.condition {
        Some(condition) => exists|subst: &Subst| #[trigger]
            condition.says(egraph, subst, yes) && subst@ == s,
        None => yes,
    }
}

/// `kept` are those of `hits` that the guard of the rule let pass, in their
/// order.
pub open spec fn sifted<L: Language, N: ClassData>(
    egraph: &EGraph<L, N>,
    rule: Rewrite<L, N>,
    hits: Seq<Hit>,
    kept: Seq<Hit>,
) -> bool
    decreases hits.len(),
{
    if hits.len() == 0 {
        kept.len() == 0
    } else {
        ||| {
            &&& kept.len() > 0 && kept.last() == hits.last()
            &&& may_say(egraph, rule, hits.last().1, true)
            &&& sifted(egraph, rule, hits.drop_last(), kept.drop_last())
        }
        ||| {
            &&& may_say(egraph, rule, hits.last().1, false)
            &&& sifted(egraph, rule, hits.drop_last(), kept)
        }
    }
}

/// `kept` are the matches of the rule in class `id` that its guard let pass.
pub open spec fn class_kept<L: Language, N: ClassData>(
    egraph: &EGraph<L, N>,
    rule: Rewrite<L, N>,
    id: Id,
    kept: Seq<Hit>,
) -> bool {
    exists|hits: Seq<Hit>| #[trigger]
        sifted(egraph, rule, hits, kept) && class_hits(egraph, rule, id, hits)
}

/// `kept` are the matches of the rule in the classes among the first `n` ids
/// that its guard let pass, class by class.
pub open spec fn kept_hits<L: Language, N: ClassData>(
    egraph: &EGraph<L, N>,
    rule: Rewrite<L, N>,
    n: nat,
    kept: Seq<Hit>,
) -> bool
    decreases n,
{
    if n == 0 {
        kept.len() == 0
    } else {
        let id = Id((n - 1) as u32);
        if egraph.model().root(id) == id {
            exists|cut: int|
                {
                    &&& 0 <= cut <= kept.len()
                    &&& #[trigger] class_kept(egraph, rule, id, kept.skip(cut))
                    &&& kept_hits(egraph, rule, (n - 1) as nat, kept.take(cut))
                }
        } else {
            kept_hits(egraph, rule, (n - 1) as nat, kept)
        }
    }
}

/// What became of one rule in an iteration: the matches that were kept, or
/// nothing if the rule was disabled.
pub type Verdict = Option<Seq<Hit>>;

/// The scheduler was asked about rule `idx`; where it enabled the rule, the
/// rule was matched and the number of matches that were kept reported.
pub open spec fn handled<L: Language, N: ClassData, S: RewriteScheduler<L, N>>(
    egraph: &EGraph<L, N>,
    rule: Rewrite<L, N>,
    iter: usize,
    idx: usize,
    before: &S,
    after: &S,
    verdict: Verdict,
) -> bool {
    match verdict {
        Some(kept) => exists|asked: &S|
            {
                &&& #[trigger] before.answers(iter, idx, rule.name@, true, asked)
                &&& kept.len() <= usize::MAX
                &&& kept_hits(egraph, rule, egraph.model().len(), kept)
                &&& asked.told(iter, idx, rule.name@, kept.len() as usize, after)
            },
        None => before.answers(iter, idx, rule.name@, false, after),
    }
}

/// In iteration `iter` the first rules were handled one after the other, each
/// once, with these verdicts.
pub open spec fn consulted<L: Language, N: ClassData, S: RewriteScheduler<L, N>>(
    egraph: &EGraph<L, N>,
    rules: Seq<Rewrite<L, N>>,
    iter: usize,
    before: &S,
    after: &S,
    verdicts: Seq<Verdict>,
) -> bool
    decreases verdicts.len(),
{
    if verdicts.len() == 0 {
        *after == *before
    } else {
        let i = verdicts.len() - 1;
        exists|mid: &S|
            {
                &&& #[trigger] handled(
                    egraph,
                    rules[i],
                    iter,
                    i as usize,
                    mid,
                    after,
                    verdicts.last(),
                )
                &&& consulted(egraph, rules, iter, before, mid, verdicts.drop_last())
            }
    }
}

/// The match `hit` of rule `i` was kept.
pub open spec fn was_kept(verdicts: Seq<Verdict>, i: int, hit: Hit) -> bool {
    0 <= i < verdicts.len() && verdicts[i] is Some && verdicts[i]->0.contains(hit)
}

/// The rules that were enabled.
pub open spec fn enabled(verdicts: Seq<Verdict>) -> Set<int> {
    Set::new(|i: int| 0 <= i < verdicts.len() && verdicts[i] is Some)
}

/// All rules have static right-hand sides.
pub open spec fn all_templates<L: Language, N: ClassData>(rules: Seq<Rewrite<L, N>>) -> bool {
    forall|i: int| #![trigger rules[i]] 0 <= i < rules.len() ==> rules[i].rhs is Pattern
}

/// The matches that were kept were acted upon, rule by rule, and the graph was
/// rebuilt. Nothing else happened, so that a rule that was disabled did nothing.
/// Where all rules were enabled, `quiet` says that no match merged its sides.
pub open spec fn acted_upon<L: Language, N: Analysis<L>>(
    old: &EGraph<L, N>,
    new: &EGraph<L, N>,
    rules: Seq<Rewrite<L, N>>,
    verdicts: Seq<Verdict>,
    quiet: bool,
) -> bool {
    exists|mid: &EGraph<L, N>, n: nat|
        {
            &&& #[trigger] only_applied(old, mid, rules, all_hits(verdicts), n)
            &&& mid.wf() && old.grows_into(mid)
            &&& passes_done(mid, new)
            &&& quiet <==> n == 0 && forall|i: int|
                #![trigger verdicts[i]]
                0 <= i < verdicts.len() ==> verdicts[i] is Some
            &&& all_templates(rules) ==> mid.model().len() <= old.model().len() + hit_ops(
                rules,
                all_hits(verdicts),
            )
        }
}

/// An iteration ended because all ids are in use: some of the matches that were
/// kept were acted upon, the next one was given up, and the graph was rebuilt.
#[verifier::opaque]
pub open spec fn cut_short<L: Language, N: Analysis<L>, S: RewriteScheduler<L, N>>(
    old: &EGraph<L, N>,
    new: &EGraph<L, N>,
    before: &S,
    after: &S,
    rules: Seq<Rewrite<L, N>>,
    iter: usize,
) -> bool {
    exists|verdicts: Seq<Verdict>|
        {
            &&& #[trigger] consulted(old, rules, iter, before, after, verdicts)
            &&& verdicts.len() == rules.len()
            &&& stopped_in(old, new, rules, all_hits(verdicts))
        }
}

/// Some of the matches `hits` were acted upon, the next one was given up, and
/// the graph was rebuilt.
pub open spec fn stopped_in<L: Language, N: Analysis<L>>(
    old: &EGraph<L, N>,
    new: &EGraph<L, N>,
    rules: Seq<Rewrite<L, N>>,
    hits: Seq<(int, Hit)>,
) -> bool {
    exists|cut: &EGraph<L, N>, stop: &EGraph<L, N>, k: int, n: nat|
        {
            &&& #[trigger] only_applied(old, cut, rules, hits.take(k), n)
            &&& #[trigger] given_up(cut, stop, rules[hits[k].0])
            &&& 0 <= k < hits.len()
            &&& leads(old, cut, stop) && stop.wf()
            &&& passes_done(stop, new)
            &&& all_templates(rules) ==> stop.model().len() <= old.model().len() + hit_ops(
                rules,
                hits,
            )
        }
}

/// One iteration took the graph `old` to `new` and the scheduler `before` to
/// `after`. Every rule was handled once, every match that was kept was acted
/// upon, and congruence was restored. A quiet iteration banned no rule and
/// merged nothing; any other one did.
///
/// Where all right-hand sides are static and the analysis leaves the graph
/// alone, whatever is new comes from the rules that were enabled.
#[verifier::opaque]
pub open spec fn round<L: Language, N: Analysis<L>, S: RewriteScheduler<L, N>>(
    old: &EGraph<L, N>,
    new: &EGraph<L, N>,
    before: &S,
    after: &S,
    rules: Seq<Rewrite<L, N>>,
    iter: usize,
    quiet: bool,
) -> bool {
    exists|verdicts: Seq<Verdict>|
        {
            &&& #[trigger] consulted(old, rules, iter, before, after, verdicts)
            &&& verdicts.len() == rules.len()
            &&& acted_upon(old, new, rules, verdicts, quiet)
            &&& forall|i: int, hit: Hit| #[trigger]
                was_kept(verdicts, i, hit) ==> acted(old, new, rules[i], hit.0, hit.1)
            &&& new.wf() && new.settled() && tidy(new.model()) && old.grows_into(new)
            &&& N::inert() && all_templates(rules) ==> {
                &&& edges_by_rules(old, new, rules, enabled(verdicts))
                &&& sprung(old.model(), new.model(), rules)
            }
            &&& if quiet {
                &&& forall|i: int| #![trigger verdicts[i]] 0 <= i < verdicts.len() ==> verdicts[i] is Some
                &&& N::inert() && all_templates(rules) ==> edges_by_congruence(old, new)
            } else {
                ||| exists|i: int| #![trigger verdicts[i]] 0 <= i < verdicts.len() && verdicts[i] is None
                ||| rule_edge_added(old.edges(), new.edges(), rules)
            }
        }
}

/// The graph has fewer e-nodes than the cap, if there is one.
pub open spec fn below_cap<L: Language>(m: Model<L>, cap: Option<usize>) -> bool {
    cap matches Some(limit) ==> node_count(m, m.len()) < limit
}

/// `n` iterations that were not quiet took the graph `old` to `new` and the
/// scheduler `before` to `after`; each started below the node cap.
pub open spec fn driven<L: Language, N: Analysis<L>, S: RewriteScheduler<L, N>>(
    old: &EGraph<L, N>,
    new: &EGraph<L, N>,
    before: &S,
    after: &S,
    rules: Seq<Rewrite<L, N>>,
    config: RunConfig,
    n: nat,
) -> bool
    decreases n,
{
    if n == 0 {
        *new == *old && *after == *before
    } else {
        let iter = (n - 1) as usize;
        exists|mid: &EGraph<L, N>, between: &S|
            {
                &&& #[trigger] round(mid, new, between, after, rules, iter, false)
                &&& mid.wf()
                &&& below_cap(mid.model(), config.node_limit)
                &&& driven(old, mid, before, between, rules, config, (n - 1) as nat)
            }
    }
}

/// The run is about to start one iteration more after `n` that were not quiet.
pub open spec fn under_way<L: Language, N: Analysis<L>, S: RewriteScheduler<L, N>>(
    old: &EGraph<L, N>,
    new: &EGraph<L, N>,
    before: &S,
    after: &S,
    rules: Seq<Rewrite<L, N>>,
    config: RunConfig,
    n: nat,
) -> bool {
    &&& new.wf()
    &&& below_cap(new.model(), config.node_limit)
    &&& driven(old, new, before, after, rules, config, n)
}

/// After `n` iterations that were not quiet came a quiet one.
pub open spec fn calmed<L: Language, N: Analysis<L>, S: RewriteScheduler<L, N>>(
    old: &EGraph<L, N>,
    new: &EGraph<L, N>,
    before: &S,
    after: &S,
    rules: Seq<Rewrite<L, N>>,
    config: RunConfig,
    n: nat,
) -> bool {
    exists|mid: &EGraph<L, N>, between: &S|
        {
            &&& #[trigger] round(mid, new, between, after, rules, n as usize, true)
            &&& mid.wf()
            &&& below_cap(mid.model(), config.node_limit)
            &&& driven(old, mid, before, between, rules, config, n)
        }
}

/// One match more was let pass.
pub proof fn lemma_sifted_push<L: Language, N: ClassData>(
    egraph: &EGraph<L, N>,
    rule: Rewrite<L, N>,
    hits: Seq<Hit>,
    kept: Seq<Hit>,
    hit: Hit,
)
    requires
        sifted(egraph, rule, hits, kept),
    ensures
        may_say(egraph, rule, hit.1, true) ==> sifted(
            egraph,
            rule,
            hits.push(hit),
            kept.push(hit),
        ),
        may_say(egraph, rule, hit.1, false) ==> sifted(egraph, rule, hits.push(hit), kept),
{
    assert(hits.push(hit).drop_last() =~= hits);
    assert(kept.push(hit).drop_last() =~= kept);
}

/// One class more was matched.
pub proof fn lemma_kept_push<L: Language, N: ClassData>(
    egraph: &EGraph<L, N>,
    rule: Rewrite<L, N>,
    n: nat,
    kept: Seq<Hit>,
    part: Seq<Hit>,
)
    requires
        n <= u32::MAX,
        kept_hits(egraph, rule, n, kept),
        if egraph.model().root(Id(n as u32)) == Id(n as u32) {
            class_kept(egraph, rule, Id(n as u32), part)
        } else {
            part.len() == 0
        },
    ensures
        kept_hits(egraph, rule, n + 1, kept + part),
{
    let more = (n + 1) as nat;
    assert((more - 1) as nat == n);
    let id = Id((more - 1) as u32);
    let all = kept + part;
    assert(all.take(kept.len() as int) =~= kept);
    assert(all.skip(kept.len() as int) =~= part);
    if egraph.model().root(id) == id {
        assert(class_kept(egraph, rule, id, all.skip(kept.len() as int)));
        assert(kept_hits(egraph, rule, (more - 1) as nat, all.take(kept.len() as int)));
    } else {
        assert(all =~= kept);
    }
}

/// One rule more was handled.
pub proof fn lemma_consulted_push<L: Language, N: ClassData, S: RewriteScheduler<L, N>>(
    egraph: &EGraph<L, N>,
    rules: Seq<Rewrite<L, N>>,
    iter: usize,
    before: &S,
    mid: &S,
    after: &S,
    verdicts: Seq<Verdict>,
    verdict: Verdict,
)
    requires
        consulted(egraph, rules, iter, before, mid, verdicts),
        verdicts.len() < rules.len() <= usize::MAX,
        handled(
            egraph,
            rules[verdicts.len() as int],
            iter,
            verdicts.len() as usize,
            mid,
            after,
            verdict,
        ),
    ensures
        consulted(egraph, rules, iter, before, after, verdicts.push(verdict)),
{
    let more = verdicts.push(verdict);
    assert(more.drop_last() =~= verdicts);
    assert(more.last() == verdict);
    let i = more.len() - 1;
    assert(consulted(egraph, rules, iter, before, mid, more.drop_last()) && handled(
        egraph,
        rules[i],
        iter,
        i as usize,
        mid,
        after,
        more.last(),
    ));
}

/// The cap on e-nodes holds work back from the moment on when all classes
/// together hold as many; without a cap nothing does.
pub proof fn law_cap<L: Language>(m: Model<L>, limit: usize)
    requires
        m.nodes.len() == m.len(),
    ensures
        below_cap(m, Some(limit)) <==> m.nodes.flatten().len() < limit,
        below_cap(m, None),
{
    super::readers::law_total_counts_all_nodes(m);
}

/// The matches of a rule in a class are the bindings that were found, in their
/// order, each with the class itself under the reserved name.
pub proof fn law_hits(id: Id, found: Seq<Bound>, i: int)
    requires
        0 <= i < found.len(),
    ensures
        hits_of(id, found).len() == found.len(),
        hits_of(id, found)[i].0 == id,
        hits_of(id, found)[i].1 == found[i].insert("$lhs"@, id),
{
}

/// Of the matches that were found, the guard lets some pass: those come in their
/// order, each of them is one that the guard may allow, and each of the others
/// is one that it may refuse.
pub proof fn law_sifted<L: Language, N: ClassData>(
    egraph: &EGraph<L, N>,
    rule: Rewrite<L, N>,
    hits: Seq<Hit>,
    kept: Seq<Hit>,
)
    requires
        sifted(egraph, rule, hits, kept),
    ensures
        kept.len() <= hits.len(),
        forall|k: int|
            #![trigger kept[k]]
            0 <= k < kept.len() ==> hits.contains(kept[k]) && may_say(
                egraph,
                rule,
                kept[k].1,
                true,
            ),
        forall|i: int|
            #![trigger hits[i]]
            0 <= i < hits.len() ==> kept.contains(hits[i]) || may_say(
                egraph,
                rule,
                hits[i].1,
                false,
            ),
        rule.condition is None ==> kept == hits,
    decreases hits.len(),
{
    if hits.len() > 0 {
        let (less, last) = (hits.drop_last(), hits.last());
        let passed = kept.len() > 0 && kept.last() == last && may_say(egraph, rule, last.1, true)
            && sifted(egraph, rule, less, kept.drop_last());
        let had = if passed {
            kept.drop_last()
        } else {
            kept
        };
        law_sifted(egraph, rule, less, had);
        assert forall|k: int| #![trigger kept[k]] 0 <= k < kept.len() implies hits.contains(
            kept[k],
        ) && may_say(egraph, rule, kept[k].1, true) by {
            if k < had.len() {
                assert(had[k] == kept[k]);
                let i = choose|i: int| 0 <= i < less.len() && less[i] == had[k];
                assert(hits[i] == kept[k]);
            } else {
                assert(hits[hits.len() - 1] == kept[k]);
            }
        }
        assert forall|i: int| #![trigger hits[i]] 0 <= i < hits.len() implies kept.contains(hits[i])
            || may_say(egraph, rule, hits[i].1, false) by {
            if i < less.len() {
                assert(less[i] == hits[i]);
                if had.contains(hits[i]) {
                    let k = choose|k: int| 0 <= k < had.len() && had[k] == hits[i];
                    assert(kept[k] == hits[i]);
                }
            } else if passed {
                assert(kept[kept.len() - 1] == hits[i]);
            }
        }
        if rule.condition is None {
            assert(passed);
            assert(kept =~= had.push(last) && hits =~= less.push(last));
        }
    } else {
        assert(kept =~= hits);
    }
}

} // verus!
