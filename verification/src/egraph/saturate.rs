//! Equality saturation: apply rewrite rules until nothing new follows.

use super::closure::{forced, tidy};
use super::applying::{
    all_hits, apply_step, given_up, hit_ops, leads, left_built, lemma_applied_more,
    lemma_applied_start, lemma_hit_ops, only_applied, ops, right_made, rule_ops, sides_joined,
    tagged,
};
use super::config::RunConfig;
use super::driving::{
    acted_upon, cut_short, stopped_in,
    all_templates, below_cap, calmed, class_hits, class_kept, consulted, driven, enabled, handled,
    hits_of, kept_hits, lemma_consulted_push, lemma_kept_push, lemma_sifted_push, may_say, round,
    sifted, under_way, was_kept, Hit, Verdict,
};
use super::forest::{with_edge, Reason};
use super::growth::{
    fresh_at, fresh_from, instance, instanced, lemma_sprung_refl, lemma_sprung_trans, side_within,
    sprung, stems, within,
};
use super::instantiate::{
    fixed_arity, lemma_fits_more, lemma_grows_models, lemma_same_chain, lemma_stands_grows,
    lemma_only_added_trans, only_added,
};
use super::labels::{
    edges_by_match, edges_by_rules, lemma_congruence_accounted, lemma_match_accounted,
    lemma_merge_labelled, lemma_rows_extend, lemma_rule_edges_trans, no_new_edges, rule_edge_added,
    rule_sides,
};
use super::lang::{copy_node, lawful, Id, Language};
use super::matching::{
    all_bound_in, bound_in, bounds, law_matches_sound, lemma_stands_class, matches_of, node_bounds,
    node_stands_for, stands_for, Bound,
};
use super::graph::{absorbed, merged_for, survivor};
use super::meaning::{
    agrees, all_hold, allowed, analysis_holds, by_operator, called, carries, carries_made, env_of, found_in,
    holds_under, is_handed, is_matched, left_value, lemma_agrees_extends, lemma_carries_trans,
    lemma_env_extends, lemma_models_len, lemma_models_merged, lemma_readable_forced,
    lemma_readable_refl, lemma_stands_means, models, readable, respected, stems_at, stems_from,
    Reading,
};
use super::model::{canon, holds_node, lemma_canon_coarsens, Model};
use super::readers::node_count;
use super::passes::passes_done;
use super::rebuild::{edges_by_congruence, is_old_edge, lemma_edges_trans, lemma_relabelled};
use super::repair::lemma_same_nodes_kept;
use super::rest::{at_rest, left_at_rest, lemma_alike_trans, lemma_rest_alike, lemma_rest_match};
use super::rewrite::{Lhs, Pattern, Rewrite, Rhs, Subst, MATCHED_LHS};
use super::soundness::law_rebuild_is_sound;
use super::scheduler::{BackoffScheduler, RewriteScheduler, RuleStats};
use super::{extends, Analysis, ClassData, EGraph, Justification};
use crate::text::{decimal, push_decimal};
use vstd::prelude::*;
use vstd::string::StringExecFns;

verus! {

impl<L: Language> Pattern<L> {
    /// No node that an operator of this pattern matches has fewer children
    /// than the pattern has sub-patterns, so that matching binds all variables.
    pub open spec fn matchable(&self) -> bool
        decreases self,
    {
        match self {
            Pattern::Var(own) => true,
            Pattern::Op { node, children } => {
                &&& forall|enode: L| #[trigger]
                    enode.same_op(node) ==> children@.len() <= enode.kids().len()
                &&& forall|i: int|
                    #![trigger children@[i]]
                    0 <= i < children@.len() ==> children@[i].matchable()
            },
        }
    }
}

impl<L: Language, N: ClassData> Rewrite<L, N> {
    /// Every match of the left-hand side binds `name`.
    pub open spec fn binds(&self, name: Seq<char>) -> bool {
        ||| name == MATCHED_LHS@
        ||| match self.lhs {
            Lhs::Pattern(p) => p.uses(name),
            Lhs::Dynamic(matcher) => matcher.binds(name),
        }
    }

    /// The rule can be run on a graph with at least `n` ids: all variables of
    /// a static right-hand side get bound, template ids that are not replaced
    /// are known, and dynamic parts can be asked about every match.
    pub open spec fn usable(&self, n: nat) -> bool {
        &&& match self.lhs {
            Lhs::Pattern(p) => p.matchable() && p.fits_in(n),
            Lhs::Dynamic(matcher) => forall|egraph: &EGraph<L, N>, id: Id|
                egraph.wf() && egraph.model().has(id) ==> #[trigger] matcher.admits(egraph, id),
        }
        &&& match self.rhs {
            Rhs::Pattern(r) => r.fits_in(n) && forall|name: Seq<char>| #[trigger]
                r.uses(name) ==> self.binds(name),
            _ => true,
        }
        &&& match self.condition {
            Some(condition) => forall|egraph: &EGraph<L, N>, subst: &Subst|
                egraph.wf() && bound_in(egraph.model(), subst@) ==> #[trigger] condition.admits(
                    egraph,
                    subst,
                ),
            None => true,
        }
    }

    /// Applying the rule adds nothing unless it merges: its right-hand side is
    /// a regular pattern, and so is its left-hand side, if it is one.
    pub open spec fn quiet(&self) -> bool {
        &&& self.rhs matches Rhs::Pattern(r) && r.regular()
        &&& match self.lhs {
            Lhs::Pattern(p) => p.regular() && !p.uses(MATCHED_LHS@),
            Lhs::Dynamic(matcher) => true,
        }
    }
}

/// The guard of a rule is bound to let a match with these bindings pass.
pub open spec fn must_pass<L: Language, N: ClassData>(
    rule: Rewrite<L, N>,
    egraph: &EGraph<L, N>,
    s: Bound,
) -> bool {
    match rule.condition {
        Some(condition) => forall|subst: &Subst|
            #![trigger condition.says(egraph, subst, false)]
            subst@ == s ==> !condition.says(egraph, subst, false),
        None => true,
    }
}

/// The rules have nothing left to say about the graph: whenever a class
/// matches the left-hand side of a rule with a static right-hand side, it
/// stands for the right-hand side already.
pub open spec fn saturated<L: Language, N: ClassData>(
    egraph: &EGraph<L, N>,
    rules: Seq<Rewrite<L, N>>,
) -> bool {
    forall|i: int, id: Id|
        #![trigger rule_says(egraph, rules[i], id)]
        0 <= i < rules.len() && egraph.model().has(id) && egraph.model().root(id) == id
            ==> rule_says(egraph, rules[i], id)
}

/// Class `id` stands for the static right-hand side of the rule under every
/// match that its left-hand side finds in the class, unless the guard of the
/// rule could refuse it.
pub open spec fn rule_says<L: Language, N: ClassData>(
    egraph: &EGraph<L, N>,
    rule: Rewrite<L, N>,
    id: Id,
) -> bool {
    match rule.lhs {
        Lhs::Pattern(p) => forall|s: Bound| #[trigger]
            matches_of(egraph.model(), p, id, Map::empty()).contains(s) ==> match_settled(
                egraph,
                rule,
                id,
                s,
            ),
        Lhs::Dynamic(matcher) => exists|substs: &Vec<Subst>|
            {
                &&& #[trigger] matcher.finds(egraph, id, substs)
                &&& forall|k: int|
                    #![trigger substs@[k]]
                    0 <= k < substs@.len() ==> match_settled(egraph, rule, id, substs@[k]@)
            },
    }
}

/// Class `id` stands for the static right-hand side of the rule under a match
/// that binds `s`, unless the guard of the rule could refuse it.
pub open spec fn match_settled<L: Language, N: ClassData>(
    egraph: &EGraph<L, N>,
    rule: Rewrite<L, N>,
    id: Id,
    s: Bound,
) -> bool {
    must_pass(rule, egraph, s.insert(MATCHED_LHS@, id)) ==> match rule.rhs {
        Rhs::Pattern(r) => stands_for(egraph.model(), id, r, s.insert(MATCHED_LHS@, id)),
        _ => true,
    }
}

/// Class `x` is where a match in class `id` is acted upon: it stands for the
/// static left-hand side, or is the class that a dynamic one matched.
pub open spec fn is_left_side<L: Language, N: ClassData>(
    m: Model<L>,
    rule: Rewrite<L, N>,
    id: Id,
    x: Id,
    s: Bound,
) -> bool {
    m.has(x) && match rule.lhs {
        Lhs::Pattern(p) => stands_for(m, x, p, s),
        Lhs::Dynamic(_) => x == id,
    }
}

/// What an applier made, if it made anything, is equal to `x`.
pub open spec fn equal_if_made<L: Language>(m: Model<L>, made: Option<Id>, x: Id) -> bool {
    made matches Some(y) ==> m.has(y) && m.root(y) == m.root(x)
}

/// In the graph `new`, class `x` stands for the right-hand side of the rule
/// under `s`: for the template, or for what the applier returned when it was
/// called, if it did not decline.
pub open spec fn right_side_in<L: Language, N: ClassData>(
    old: &EGraph<L, N>,
    new: &EGraph<L, N>,
    rule: Rewrite<L, N>,
    id: Id,
    x: Id,
    s: Bound,
) -> bool {
    match rule.rhs {
        Rhs::Pattern(r) => stands_for(new.model(), x, r, s),
        Rhs::Dynamic(applier) => exists|
            before: &EGraph<L, N>,
            subst: &Subst,
            after: &EGraph<L, N>,
            made: Option<Id>,
        |
            {
                &&& #[trigger] applier.does(before, subst, after, made)
                &&& subst@ == s
                &&& before.wf() && old.grows_into(before)
                &&& after.wf() && after.grows_into(new)
                &&& equal_if_made(new.model(), made, x)
            },
        Rhs::DynamicNode(applier) => exists|
            before: &EGraph<L, N>,
            subst: &Subst,
            node: L,
            after: &EGraph<L, N>,
            made: Option<Id>,
        |
            {
                &&& #[trigger] applier.does(before, subst, &node, after, made)
                &&& subst@ == s
                &&& is_handed(before.model(), rule, id, s, node)
                &&& before.wf() && old.grows_into(before)
                &&& after.wf() && after.grows_into(new)
                &&& equal_if_made(new.model(), made, x)
            },
    }
}

/// A match of the rule in class `id` under `s` was acted upon on the way from
/// the graph `old` to `new`: one class stands for both sides of the rule.
pub open spec fn acted<L: Language, N: ClassData>(
    old: &EGraph<L, N>,
    new: &EGraph<L, N>,
    rule: Rewrite<L, N>,
    id: Id,
    s: Bound,
) -> bool {
    exists|x: Id| #[trigger]
        is_left_side(new.model(), rule, id, x, s) && right_side_in(old, new, rule, id, x, s)
}

/// A match in class `id` that binds `s` was acted upon, unless the guard of the
/// rule could refuse it.
pub open spec fn match_done<L: Language, N: ClassData>(
    old: &EGraph<L, N>,
    new: &EGraph<L, N>,
    rule: Rewrite<L, N>,
    id: Id,
    s: Bound,
) -> bool {
    must_pass(rule, old, s.insert(MATCHED_LHS@, id)) ==> acted(
        old,
        new,
        rule,
        id,
        s.insert(MATCHED_LHS@, id),
    )
}

/// Everything that the left-hand side of the rule matched in class `id` of the
/// graph `old` was acted upon.
pub open spec fn rule_did<L: Language, N: ClassData>(
    old: &EGraph<L, N>,
    new: &EGraph<L, N>,
    rule: Rewrite<L, N>,
    id: Id,
) -> bool {
    match rule.lhs {
        Lhs::Pattern(p) => forall|s: Bound| #[trigger]
            matches_of(old.model(), p, id, Map::empty()).contains(s) ==> match_done(
                old,
                new,
                rule,
                id,
                s,
            ),
        Lhs::Dynamic(matcher) => exists|substs: &Vec<Subst>|
            {
                &&& #[trigger] matcher.finds(old, id, substs)
                &&& all_bound_in(old.model(), bounds(substs@))
                &&& forall|k: int|
                    #![trigger substs@[k]]
                    0 <= k < substs@.len() ==> match_done(old, new, rule, id, substs@[k]@)
            },
    }
}

/// Every match that the rules had in the graph `old` was acted upon.
pub open spec fn realized<L: Language, N: ClassData>(
    old: &EGraph<L, N>,
    new: &EGraph<L, N>,
    rules: Seq<Rewrite<L, N>>,
) -> bool {
    forall|i: int, id: Id|
        #![trigger rule_did(old, new, rules[i], id)]
        0 <= i < rules.len() && old.model().has(id) && old.model().root(id) == id ==> rule_did(
            old,
            new,
            rules[i],
            id,
        )
}

/// Why a run ended.
#[derive(Clone, Copy, PartialEq, Eq, Debug)]
pub enum StopReason {
    /// The last of this many iterations merged nothing, and no rule was banned.
    Saturated { iterations: usize },
    /// The graph reached the node cap after this many iterations.
    NodeLimit { limit: usize, iterations: usize },
    /// All iterations were used up.
    IterationLimit { limit: usize },
    /// All ids are in use.
    OutOfIds { iterations: usize },
}

/// What is reported of a run that ended.
pub open spec fn stop_text(reason: StopReason) -> Seq<char> {
    match reason {
        StopReason::Saturated { iterations } => "Saturated after "@ + decimal(iterations as nat)
            + " iteration(s)."@,
        StopReason::NodeLimit { limit, iterations } => "Stopped at node limit ("@ + decimal(
            limit as nat,
        ) + ") after "@ + decimal(iterations as nat) + " iteration(s)."@,
        StopReason::IterationLimit { limit } => "Stopped at iteration limit ("@ + decimal(
            limit as nat,
        ) + ")."@,
        StopReason::OutOfIds { iterations } => "Out of ids after "@ + decimal(iterations as nat)
            + " iteration(s)."@,
    }
}

impl StopReason {
    /// A line that reports the end of the run.
    pub fn message(&self) -> (text: String)
        ensures
            text@ == stop_text(*self),
    {
        let mut text: String = String::new();
        match self {
            StopReason::Saturated { iterations } => {
                text.append("Saturated after ");
                push_decimal(&mut text, *iterations as u64);
                text.append(" iteration(s).");
            },
            StopReason::NodeLimit { limit, iterations } => {
                text.append("Stopped at node limit (");
                push_decimal(&mut text, *limit as u64);
                text.append(") after ");
                push_decimal(&mut text, *iterations as u64);
                text.append(" iteration(s).");
            },
            StopReason::IterationLimit { limit } => {
                text.append("Stopped at iteration limit (");
                push_decimal(&mut text, *limit as u64);
                text.append(").");
            },
            StopReason::OutOfIds { iterations } => {
                text.append("Out of ids after ");
                push_decimal(&mut text, *iterations as u64);
                text.append(" iteration(s).");
            },
        }
        assert(text@ =~= stop_text(*self));
        text
    }
}

/// What applying a match did.
#[derive(Clone, Copy, PartialEq, Eq)]
enum Outcome {
    Merged,
    Unchanged,
    OutOfIds,
}

/// A class that stands for a pattern binds all of its variables.
proof fn lemma_stands_binds<L: Language>(
    m: Model<L>,
    id: Id,
    p: Pattern<L>,
    s: Bound,
    name: Seq<char>,
)
    requires
        p.matchable(),
        stands_for(m, id, p, s),
        p.uses(name),
    ensures
        s.contains_key(name),
    decreases p,
{
    if let Pattern::Op { node, children } = p {
        let a = choose|a: int|
            0 <= a < m.class(id).len() && #[trigger] m.class(id)[a].same_op(&node) && forall|i: int|
                #![trigger children@[i]]
                0 <= i < children@.len() && i < m.class(id)[a].kids().len() ==> stands_for(
                    m,
                    m.class(id)[a].kids()[i],
                    children@[i],
                    s,
                );
        let i = choose|i: int|
            #![trigger children@[i]]
            0 <= i < children@.len() && children@[i].uses(name);
        assert(children@[i].matchable());
        lemma_stands_binds(m, m.class(id)[a].kids()[i], children@[i], s, name);
    }
}

/// Bindings of all variables close a pattern.
proof fn lemma_closed_by<L: Language>(p: Pattern<L>, s: Bound)
    requires
        forall|name: Seq<char>| #[trigger] p.uses(name) ==> s.contains_key(name),
    ensures
        p.closed_by(s),
    decreases p,
{
    match p {
        Pattern::Var(own) => {
            assert(p.uses(own@));
        },
        Pattern::Op { node, children } => {
            assert forall|i: int|
                #![trigger children@[i]]
                0 <= i < children@.len() implies children@[i].closed_by(s) by {
                assert forall|name: Seq<char>| #[trigger] children@[i].uses(
                    name,
                ) implies s.contains_key(name) by {
                    assert(p.uses(name));
                }
                lemma_closed_by(children@[i], s);
            }
        },
    }
}

/// A name that a pattern does not use can be bound to anything.
proof fn lemma_stands_insert<L: Language>(
    m: Model<L>,
    id: Id,
    p: Pattern<L>,
    s: Bound,
    name: Seq<char>,
    v: Id,
)
    requires
        !p.uses(name),
        stands_for(m, id, p, s),
    ensures
        stands_for(m, id, p, s.insert(name, v)),
    decreases p,
{
    match p {
        Pattern::Var(own) => {
            assert(own@ != name);
        },
        Pattern::Op { node, children } => {
            let a = choose|a: int|
                0 <= a < m.class(id).len() && #[trigger] m.class(id)[a].same_op(&node)
                    && forall|i: int|
                    #![trigger children@[i]]
                    0 <= i < children@.len() && i < m.class(id)[a].kids().len() ==> stands_for(
                        m,
                        m.class(id)[a].kids()[i],
                        children@[i],
                        s,
                    );
            assert forall|i: int|
                #![trigger children@[i]]
                0 <= i < children@.len() && i < m.class(id)[a].kids().len() implies stands_for(
                m,
                m.class(id)[a].kids()[i],
                children@[i],
                s.insert(name, v),
            ) by {
                assert(!children@[i].uses(name));
                lemma_stands_insert(m, m.class(id)[a].kids()[i], children@[i], s, name, v);
            }
            assert(m.class(id)[a].same_op(&node));
        },
    }
}

/// A name that a pattern does not use can be bound to anything.
proof fn lemma_node_insert<L: Language>(m: Model<L>, id: Id, enode: L, p: Pattern<L>, s: Bound, v: Id)
    requires
        !p.uses(MATCHED_LHS@),
        node_stands_for(m, id, enode, p, s),
    ensures
        node_stands_for(m, id, enode, p, s.insert(MATCHED_LHS@, v)),
{
    if let Pattern::Op { node, children } = p {
        assert forall|i: int|
            #![trigger children@[i]]
            0 <= i < children@.len() && i < enode.kids().len() implies stands_for(
            m,
            enode.kids()[i],
            children@[i],
            s.insert(MATCHED_LHS@, v),
        ) by {
            assert(!children@[i].uses(MATCHED_LHS@));
            lemma_stands_insert(m, enode.kids()[i], children@[i], s, MATCHED_LHS@, v);
        }
    }
}

/// The bindings `s` are what the engine hands to the parts of `rule` after a
/// match in class `id`.
spec fn fired<L: Language, N: ClassData>(
    m: Model<L>,
    rule: Rewrite<L, N>,
    id: Id,
    s: Bound,
) -> bool {
    &&& m.has(id)
    &&& bound_in(m, s)
    &&& forall|name: Seq<char>| #[trigger] rule.binds(name) ==> s.contains_key(name)
    &&& s.contains_key(MATCHED_LHS@) && s[MATCHED_LHS@] == id
    &&& match rule.lhs {
        Lhs::Pattern(p) => p.closed_by(s) && (!p.uses(MATCHED_LHS@) ==> stands_for(m, id, p, s)),
        Lhs::Dynamic(matcher) => true,
    }
}

/// A match of a static left-hand side, with the matched class recorded.
proof fn lemma_fired<L: Language, N: ClassData>(
    m: Model<L>,
    rule: Rewrite<L, N>,
    p: Pattern<L>,
    id: Id,
    t: Bound,
)
    requires
        m.shape(),
        m.has(id),
        m.root(id) == id,
        rule.lhs == Lhs::<L, N>::Pattern(p),
        p.matchable(),
        matches_of(m, p, id, Map::empty()).contains(t),
    ensures
        fired(m, rule, id, t.insert(MATCHED_LHS@, id)),
{
    law_matches_sound(m, p, id, Map::empty(), t);
    let s = t.insert(MATCHED_LHS@, id);
    assert forall|name: Seq<char>| #[trigger] p.uses(name) implies s.contains_key(name) by {
        lemma_stands_binds(m, id, p, t, name);
    }
    lemma_closed_by(p, s);
    if !p.uses(MATCHED_LHS@) {
        lemma_stands_insert(m, id, p, t, MATCHED_LHS@, id);
    }
}

/// A match that waits to be applied: the number of its rule, the matched class,
/// the bindings, and the e-node that a static operator pattern matched.
#[verifier::reject_recursive_types(L)]
struct Match<L: Language> {
    rule: usize,
    id: Id,
    subst: Subst,
    node: Option<L>,
}

/// `node` is the e-node that the rule matched, where its left-hand side is an
/// operator pattern.
spec fn carried<L: Language, N: ClassData>(
    m: Model<L>,
    rule: Rewrite<L, N>,
    id: Id,
    s: Bound,
    node: Option<L>,
) -> bool {
    rule.lhs matches Lhs::Pattern(p) ==> (p is Op ==> node is Some && is_matched(
        m,
        p,
        id,
        s,
        node->0,
    ))
}

/// The e-node that was matched stays so while the graph grows.
proof fn lemma_carried_grows<L: Language, N: ClassData>(
    a: &EGraph<L, N>,
    b: &EGraph<L, N>,
    rule: Rewrite<L, N>,
    id: Id,
    s: Bound,
    node: Option<L>,
)
    requires
        a.safe(),
        b.safe(),
        a.grows_into(b),
        a.model().has(id),
        bound_in(a.model(), s),
        carried(a.model(), rule, id, s, node),
    ensures
        carried(b.model(), rule, id, s, node),
{
    a.lemma_safe();
    b.lemma_safe();
    lemma_grows_models(a, b);
    let (m, n) = (a.model(), b.model());
    if let Lhs::Pattern(p) = rule.lhs {
        if p is Op {
            let own = node->0;
            assert forall|j: int| 0 <= j < own.kids().len() implies (#[trigger] own.kids()[j]).at()
                < n.len() by {
                assert(own.kids()[j].at() < m.len());
            }
            let r = m.root(id);
            let x = choose|x: int|
                0 <= x < m.class(id).len() && canon(m.roots, #[trigger] m.class(id)[x]) == canon(
                    m.roots,
                    own,
                );
            assert(m.nodes[r.at()][x] == m.class(id)[x]);
            assert(m.knows(m.nodes[r.at()][x]));
            assert(holds_node(
                n.roots,
                n.class(Id(r.at() as u32)),
                canon(n.roots, m.nodes[r.at()][x]),
            ));
            assert(m.root(r) == r);
            assert(m.roots[r.at()] == m.roots[id.at()]);
            assert(n.class(r) == n.class(id));
            lemma_canon_coarsens(m.roots, n.roots, m.nodes[r.at()][x], own);
            if !p.uses(MATCHED_LHS@) {
                if let Pattern::Op { node: template, children } = p {
                    assert forall|i: int|
                        #![trigger children@[i]]
                        0 <= i < children@.len() && i < own.kids().len() implies stands_for(
                        n,
                        own.kids()[i],
                        children@[i],
                        s,
                    ) by {
                        assert(m.has(own.kids()[i]));
                        lemma_stands_grows(m, n, own.kids()[i], children@[i], s);
                    }
                }
                assert(node_stands_for(n, id, own, p, s));
            }
        }
    }
}

/// All of `list` are matches of rules.
spec fn all_fired<L: Language, N: ClassData>(
    m: Model<L>,
    rules: Seq<Rewrite<L, N>>,
    list: Seq<Match<L>>,
) -> bool {
    forall|k: int|
        #![trigger list[k]]
        0 <= k < list.len() ==> list[k].rule < rules.len() && fired(
            m,
            rules[list[k].rule as int],
            list[k].id,
            list[k].subst@,
        ) && carried(
            m,
            rules[list[k].rule as int],
            list[k].id,
            list[k].subst@,
            list[k].node,
        )
}

/// The guards of the rules let all of `list` pass.
spec fn all_allowed<L: Language, N: ClassData>(
    egraph: &EGraph<L, N>,
    rules: Seq<Rewrite<L, N>>,
    list: Seq<Match<L>>,
) -> bool {
    forall|k: int|
        #![trigger list[k]]
        0 <= k < list.len() ==> allowed(rules[list[k].rule as int], egraph, &list[k].subst)
}

/// Both sides of all of `list` have one value.
spec fn all_agree<L: Language, N: ClassData>(
    eval: Reading<L>,
    rules: Seq<Rewrite<L, N>>,
    vals: Seq<int>,
    list: Seq<Match<L>>,
) -> bool {
    forall|k: int|
        #![trigger list[k]]
        0 <= k < list.len() ==> agrees(
            eval,
            rules[list[k].rule as int],
            vals,
            list[k].subst@,
        )
}

/// `list` holds the match of rule `i` in class `id` under `s`.
spec fn holds_match<L: Language>(list: Seq<Match<L>>, i: int, id: Id, s: Bound) -> bool {
    exists|k: int|
        #![trigger list[k]]
        0 <= k < list.len() && list[k].rule == i && list[k].id == id && list[k].subst@ == s
}

/// The first `n` of `list` were acted upon on the way from `old` to `new`.
spec fn all_acted<L: Language, N: ClassData>(
    old: &EGraph<L, N>,
    new: &EGraph<L, N>,
    rules: Seq<Rewrite<L, N>>,
    list: Seq<Match<L>>,
    n: int,
) -> bool {
    forall|k: int|
        #![trigger list[k]]
        0 <= k < n ==> acted(
            old,
            new,
            rules[list[k].rule as int],
            list[k].id,
            list[k].subst@,
        )
}

/// `list` holds the match of rule `i` in class `id` that binds `s`, unless the
/// guard of the rule could refuse it.
spec fn taken<L: Language, N: ClassData>(
    egraph: &EGraph<L, N>,
    rule: Rewrite<L, N>,
    i: int,
    id: Id,
    list: Seq<Match<L>>,
    s: Bound,
) -> bool {
    must_pass(rule, egraph, s.insert(MATCHED_LHS@, id)) ==> holds_match(
        list,
        i,
        id,
        s.insert(MATCHED_LHS@, id),
    )
}

/// `list` holds every match of the rule `rule` of number `i` in class `id`,
/// but for those that its guard could refuse.
spec fn all_matches_in<L: Language, N: ClassData>(
    egraph: &EGraph<L, N>,
    rule: Rewrite<L, N>,
    i: int,
    id: Id,
    list: Seq<Match<L>>,
) -> bool {
    match rule.lhs {
        Lhs::Pattern(p) => forall|t: Bound| #[trigger]
            matches_of(egraph.model(), p, id, Map::empty()).contains(t) ==> taken(
                egraph,
                rule,
                i,
                id,
                list,
                t,
            ),
        Lhs::Dynamic(matcher) => exists|substs: &Vec<Subst>|
            {
                &&& #[trigger] matcher.finds(egraph, id, substs)
                &&& all_bound_in(egraph.model(), bounds(substs@))
                &&& forall|k: int|
                    #![trigger substs@[k]]
                    0 <= k < substs@.len() ==> taken(egraph, rule, i, id, list, substs@[k]@)
            },
    }
}

/// A longer list holds the match that a shorter one held.
proof fn lemma_still_held<L: Language>(
    list: Seq<Match<L>>,
    more: Seq<Match<L>>,
    i: int,
    id: Id,
    s: Bound,
)
    requires
        list.len() <= more.len(),
        forall|k: int| #![trigger list[k]] 0 <= k < list.len() ==> more[k] == list[k],
        holds_match(list, i, id, s),
    ensures
        holds_match(more, i, id, s),
{
    let k = choose|k: int|
        #![trigger list[k]]
        0 <= k < list.len() && list[k].rule == i && list[k].id == id && list[k].subst@ == s;
    assert(more[k] == list[k]);
}

/// A longer list holds what a shorter one held.
proof fn lemma_more_matches<L: Language, N: ClassData>(
    egraph: &EGraph<L, N>,
    rule: Rewrite<L, N>,
    i: int,
    id: Id,
    list: Seq<Match<L>>,
    more: Seq<Match<L>>,
)
    requires
        all_matches_in(egraph, rule, i, id, list),
        list.len() <= more.len(),
        forall|k: int| #![trigger list[k]] 0 <= k < list.len() ==> more[k] == list[k],
    ensures
        all_matches_in(egraph, rule, i, id, more),
{
    assert forall|t: Bound| #[trigger] taken(egraph, rule, i, id, list, t) implies taken(
        egraph,
        rule,
        i,
        id,
        more,
        t,
    ) by {
        if must_pass(rule, egraph, t.insert(MATCHED_LHS@, id)) {
            lemma_still_held(list, more, i, id, t.insert(MATCHED_LHS@, id));
        }
    }
    if let Lhs::Dynamic(matcher) = rule.lhs {
        let substs = choose|substs: &Vec<Subst>|
            {
                &&& #[trigger] matcher.finds(egraph, id, substs)
                &&& all_bound_in(egraph.model(), bounds(substs@))
                &&& forall|k: int|
                    #![trigger substs@[k]]
                    0 <= k < substs@.len() ==> taken(egraph, rule, i, id, list, substs@[k]@)
            };
        assert(matcher.finds(egraph, id, substs));
        assert forall|k: int| #![trigger substs@[k]] 0 <= k < substs@.len() implies taken(
            egraph,
            rule,
            i,
            id,
            more,
            substs@[k]@,
        ) by {
            assert(taken(egraph, rule, i, id, list, substs@[k]@));
        }
    }
}

/// The matches in `list` from place `start` on.
spec fn hits_from<L: Language>(list: Seq<Match<L>>, start: nat) -> Seq<Hit> {
    Seq::new(
        (list.len() - start) as nat,
        |j: int| (list[start + j].id, list[start + j].subst@),
    )
}

/// The contents of substitutions that come with optional e-nodes.
spec fn found_bounds<L: Language>(found: Seq<(Subst, Option<L>)>) -> Seq<Bound> {
    Seq::new(found.len(), |i: int| found[i].0@)
}

impl<L: Language, N: Analysis<L>> EGraph<L, N> {
    /// What the left-hand side of a rule finds in class `id`: substitutions,
    /// each with the e-node that a static operator pattern matched.
    fn candidates(&self, rule: &Rewrite<L, N>, id: Id) -> (found: Vec<(Subst, Option<L>)>)
        requires
            self.wf(),
            self.model().has(id),
            self.model().root(id) == id,
            rule.usable(self.model().len()),
        ensures
            all_bound_in(self.model(), found_bounds(found@)),
            match rule.lhs {
                Lhs::Pattern(p) => found_bounds(found@) == matches_of(
                    self.model(),
                    p,
                    id,
                    Map::empty(),
                ),
                Lhs::Dynamic(matcher) => exists|substs: &Vec<Subst>| #[trigger]
                    matcher.finds(self, id, substs) && bounds(substs@) == found_bounds(found@),
            },
            rule.lhs matches Lhs::Dynamic(matcher) ==> forall|k: int, name: Seq<char>|
                #![trigger found@[k].0@.contains_key(name)]
                0 <= k < found@.len() && matcher.binds(name) ==> found@[k].0@.contains_key(name),
            forall|k: int|
                #![trigger found@[k]]
                0 <= k < found@.len() ==> (rule.lhs matches Lhs::Pattern(p) ==> (p is Op
                    ==> found@[k].1 is Some && node_stands_for(
                    self.model(),
                    id,
                    found@[k].1->0,
                    p,
                    found@[k].0@,
                ))),
    {
        let ghost m = self.model();
        if let Lhs::Pattern(p) = &rule.lhs {
            if let Pattern::Op { .. } = p {
                let mut pairs = self.match_with_nodes(p, id);
                let ghost all = pairs@;
                let mut found: Vec<(Subst, Option<L>)> = Vec::new();
                assert(all.take(0) =~= Seq::empty());
                let mut i: usize = 0;
                while i < pairs.len()
                    invariant
                        lawful::<L>(),
                        pairs@ == all,
                        i <= all.len(),
                        found@.len() == i,
                        forall|k: int|
                            #![trigger found@[k]]
                            0 <= k < i ==> found@[k].0@ == all[k].0@ && found@[k].1 == Some(
                                all[k].1,
                            ),
                    decreases all.len() - i,
                {
                    let copy = copy_node(&pairs[i].1);
                    found.push((pairs[i].0.clone(), Some(copy)));
                    i = i + 1;
                }
                proof {
                    assert(found_bounds(found@) =~= node_bounds(all));
                    assert forall|k: int|
                        #![trigger found_bounds(found@)[k]]
                        0 <= k < found@.len() implies bound_in(m, found_bounds(found@)[k]) by {
                        assert(bound_in(m, all[k].0@));
                        assert(found@[k].0@ == all[k].0@);
                    }
                    assert forall|k: int|
                        #![trigger found@[k]]
                        0 <= k < found@.len() implies found@[k].1 is Some && node_stands_for(
                        m,
                        id,
                        found@[k].1->0,
                        *p,
                        found@[k].0@,
                    ) by {
                        assert(node_stands_for(m, id, all[k].1, *p, all[k].0@));
                    }
                }
                return found;
            }
        }
        let substs = match &rule.lhs {
            Lhs::Pattern(p) => self.match_pattern(p, id, &Subst::new()),
            Lhs::Dynamic(matcher) => {
                assert(matcher.admits(self, id));
                matcher.find_matches(self, id)
            },
        };
        let mut found: Vec<(Subst, Option<L>)> = Vec::new();
        let mut i: usize = 0;
        while i < substs.len()
            invariant
                i <= substs@.len(),
                found@.len() == i,
                forall|k: int| #![trigger found@[k]] 0 <= k < i ==> found@[k].0@ == substs@[k]@,
            decreases substs@.len() - i,
        {
            found.push((substs[i].clone(), None));
            i = i + 1;
        }
        proof {
            assert(found_bounds(found@) =~= bounds(substs@));
            if let Lhs::Dynamic(matcher) = &rule.lhs {
                assert(matcher.finds(self, id, &substs));
                assert forall|k: int, name: Seq<char>|
                    #![trigger found@[k].0@.contains_key(name)]
                    0 <= k < found@.len() && matcher.binds(name) implies found@[k].0@.contains_key(
                    name,
                ) by {
                    assert(substs@[k]@.contains_key(name));
                }
            }
        }
        found
    }

    /// Collect the matches of rule number `idx` in class `id`.
    fn matches_in_class(
        &self,
        rules: &[Rewrite<L, N>],
        idx: usize,
        id: Id,
        list: &mut Vec<Match<L>>,
    )
        requires
            self.wf(),
            self.model().has(id),
            self.model().root(id) == id,
            idx < rules@.len(),
            rules@[idx as int].usable(self.model().len()),
            all_fired(self.model(), rules@, old(list)@),
            all_allowed(self, rules@, old(list)@),
        ensures
            all_fired(self.model(), rules@, final(list)@),
            all_allowed(self, rules@, final(list)@),
            old(list)@.len() <= final(list)@.len(),
            forall|k: int|
                #![trigger old(list)@[k]]
                0 <= k < old(list)@.len() ==> final(list)@[k] == old(list)@[k],
            all_matches_in(self, rules@[idx as int], idx as int, id, final(list)@),
            forall|k: int|
                #![trigger final(list)@[k]]
                old(list)@.len() <= k < final(list)@.len() ==> final(list)@[k].rule == idx,
            class_kept(self, rules@[idx as int], id, hits_from(final(list)@, old(list)@.len())),
    {
        let ghost m = self.model();
        let ghost before = list@;
        let rule = &rules[idx];
        proof {
            self.lemma_safe();
        }
        // Static pattern or dynamic matcher: both yield substitutions for the
        // candidate class.
        let found = self.candidates(rule, id);
        let ghost hits = hits_of(id, found_bounds(found@));
        let mut i: usize = 0;
        proof {
            assert(hits.take(0) =~= Seq::empty());
            assert(hits_from(list@, before.len()) =~= Seq::empty());
        }
        while i < found.len()
            invariant
                self.wf(),
                lawful::<L>(),
                m == self.model(),
                m.shape(),
                m.has(id),
                m.root(id) == id,
                idx < rules@.len(),
                *rule == rules@[idx as int],
                rule.usable(m.len()),
                i <= found@.len(),
                all_bound_in(m, found_bounds(found@)),
                match rule.lhs {
                    Lhs::Pattern(p) => found_bounds(found@) == matches_of(m, p, id, Map::empty()),
                    Lhs::Dynamic(matcher) => exists|substs: &Vec<Subst>| #[trigger]
                        matcher.finds(self, id, substs) && bounds(substs@) == found_bounds(found@),
                },
                rule.lhs matches Lhs::Dynamic(matcher) ==> forall|k: int, name: Seq<char>|
                    #![trigger found@[k].0@.contains_key(name)]
                    0 <= k < found@.len() && matcher.binds(name)
                        ==> found@[k].0@.contains_key(name),
                forall|k: int|
                    #![trigger found@[k]]
                    0 <= k < found@.len() ==> (rule.lhs matches Lhs::Pattern(p) ==> (p is Op
                        ==> found@[k].1 is Some && node_stands_for(
                        m,
                        id,
                        found@[k].1->0,
                        p,
                        found@[k].0@,
                    ))),
                all_fired(m, rules@, list@),
                all_allowed(self, rules@, list@),
                before.len() <= list@.len(),
                forall|k: int|
                    #![trigger before[k]]
                    0 <= k < before.len() ==> list@[k] == before[k],
                forall|k: int|
                    #![trigger found@[k]]
                    0 <= k < i ==> taken(self, *rule, idx as int, id, list@, found@[k].0@),
                hits == hits_of(id, found_bounds(found@)),
                sifted(self, *rule, hits.take(i as int), hits_from(list@, before.len())),
                forall|k: int|
                    #![trigger list@[k]]
                    before.len() <= k < list@.len() ==> list@[k].rule == idx,
            decreases found@.len() - i,
        {
            let ghost had = list@;
            let ghost t = found@[i as int].0@;
            // Thread the matched class through to the RHS and the guard under
            // a reserved key.
            let mut subst = found[i].0.clone();
            subst.insert(MATCHED_LHS.to_owned(), id);
            let node = match &found[i].1 {
                Some(own) => Some(copy_node(own)),
                None => None,
            };
            assert(node == found@[i as int].1);
            proof {
                assert(found_bounds(found@)[i as int] == t);
                assert(bound_in(m, found_bounds(found@)[i as int]));
                if let Lhs::Pattern(p) = &rule.lhs {
                    assert(matches_of(m, *p, id, Map::empty()).contains(t));
                    lemma_fired(m, *rule, *p, id, t);
                    if *p is Op && !p.uses(MATCHED_LHS@) {
                        lemma_node_insert(m, id, node->0, *p, t, id);
                    }
                } else {
                    assert(fired(m, *rule, id, subst@));
                }
                assert(carried(m, *rule, id, subst@, node));
            }
            // Gate on the rule's condition, if any.
            let pass = match &rule.condition {
                Some(condition) => {
                    assert(condition.admits(self, &subst));
                    condition.holds(self, &subst)
                },
                None => true,
            };
            if pass {
                proof {
                    assert(found_in(*rule, self, id, t)) by {
                        if let Lhs::Dynamic(matcher) = &rule.lhs {
                            let substs = choose|substs: &Vec<Subst>| #[trigger]
                                matcher.finds(self, id, substs) && bounds(substs@)
                                    == found_bounds(found@);
                            assert(bounds(substs@)[i as int] == t);
                            assert(matcher.finds(self, id, substs) && substs@[i as int]@ == t);
                        }
                    }
                    assert(subst@ == t.insert(MATCHED_LHS@, id));
                    assert(allowed(*rule, self, &subst));
                }
                let ghost kept = subst;
                assert(may_say(self, *rule, kept@, true)) by {
                    if let Some(condition) = rule.condition {
                        assert(condition.says(self, &kept, true));
                    }
                }
                list.push(Match { rule: idx, id, subst, node });
                assert(list@[had.len() as int].subst@ == t.insert(MATCHED_LHS@, id));
                proof {
                    let hit = (id, t.insert(MATCHED_LHS@, id));
                    lemma_sifted_push(
                        self,
                        *rule,
                        hits.take(i as int),
                        hits_from(had, before.len()),
                        hit,
                    );
                    assert(hits[i as int] == hit);
                    assert(hits.take(i + 1) =~= hits.take(i as int).push(hit));
                    assert(hits_from(list@, before.len()) =~= hits_from(had, before.len()).push(
                        hit,
                    ));
                }
            } else {
                assert(!must_pass(*rule, self, subst@));
                proof {
                    let hit = (id, t.insert(MATCHED_LHS@, id));
                    assert(may_say(self, *rule, hit.1, false)) by {
                        if let Some(condition) = rule.condition {
                            assert(condition.says(self, &subst, false));
                        }
                    }
                    lemma_sifted_push(
                        self,
                        *rule,
                        hits.take(i as int),
                        hits_from(had, before.len()),
                        hit,
                    );
                    assert(hits[i as int] == hit);
                    assert(hits.take(i + 1) =~= hits.take(i as int).push(hit));
                }
            }
            proof {
                assert forall|k: int| #![trigger found@[k]] 0 <= k < i implies taken(
                    self,
                    *rule,
                    idx as int,
                    id,
                    list@,
                    found@[k].0@,
                ) by {
                    assert(taken(self, *rule, idx as int, id, had, found@[k].0@));
                    let s = found@[k].0@.insert(MATCHED_LHS@, id);
                    if must_pass(*rule, self, s) {
                        lemma_still_held(had, list@, idx as int, id, s);
                    }
                }
            }
            i = i + 1;
        }
        proof {
            assert(hits.take(i as int) =~= hits);
            assert(class_hits(self, *rule, id, hits)) by {
                if let Lhs::Dynamic(matcher) = &rule.lhs {
                    let substs = choose|substs: &Vec<Subst>| #[trigger]
                        matcher.finds(self, id, substs) && bounds(substs@) == found_bounds(found@);
                    assert(matcher.finds(self, id, substs) && hits == hits_of(id, bounds(substs@)));
                }
            }
            match &rule.lhs {
                Lhs::Pattern(p) => {
                    assert forall|t: Bound| #[trigger]
                        matches_of(m, *p, id, Map::empty()).contains(t) implies taken(
                        self,
                        *rule,
                        idx as int,
                        id,
                        list@,
                        t,
                    ) by {
                        let all = matches_of(m, *p, id, Map::empty());
                        let k = choose|k: int| 0 <= k < all.len() && all[k] == t;
                        assert(found_bounds(found@)[k] == t);
                        assert(found@[k].0@ == t);
                    }
                },
                Lhs::Dynamic(matcher) => {
                    let substs = choose|substs: &Vec<Subst>| #[trigger]
                        matcher.finds(self, id, substs) && bounds(substs@) == found_bounds(found@);
                    assert(matcher.finds(self, id, substs));
                    assert forall|k: int|
                        #![trigger substs@[k]]
                        0 <= k < substs@.len() implies taken(
                        self,
                        *rule,
                        idx as int,
                        id,
                        list@,
                        substs@[k]@,
                    ) by {
                        assert(bounds(substs@)[k] == substs@[k]@);
                        assert(found_bounds(found@)[k] == found@[k].0@);
                    }
                },
            }
        }
    }

    /// Collect the matches of rule number `idx` in all classes; returns how
    /// many there are.
    fn matches_of_rule(&self, rules: &[Rewrite<L, N>], idx: usize, list: &mut Vec<Match<L>>) -> (count:
        usize)
        requires
            self.wf(),
            idx < rules@.len(),
            rules@[idx as int].usable(self.model().len()),
            all_fired(self.model(), rules@, old(list)@),
            all_allowed(self, rules@, old(list)@),
        ensures
            all_fired(self.model(), rules@, final(list)@),
            all_allowed(self, rules@, final(list)@),
            old(list)@.len() <= final(list)@.len(),
            count == final(list)@.len() - old(list)@.len(),
            kept_hits(
                self,
                rules@[idx as int],
                self.model().len(),
                hits_from(final(list)@, old(list)@.len()),
            ),
            forall|k: int|
                #![trigger final(list)@[k]]
                old(list)@.len() <= k < final(list)@.len() ==> final(list)@[k].rule == idx,
            forall|k: int|
                #![trigger old(list)@[k]]
                0 <= k < old(list)@.len() ==> final(list)@[k] == old(list)@[k],
            forall|id: Id|
                #![trigger self.model().root(id)]
                self.model().has(id) && self.model().root(id) == id ==> all_matches_in(
                    self,
                    rules@[idx as int],
                    idx as int,
                    id,
                    final(list)@,
                ),
    {
        let ghost m = self.model();
        let ghost before = list@;
        proof {
            self.lemma_safe();
        }
        let start = list.len();
        let mut i: usize = 0;
        assert(hits_from(list@, before.len()) =~= Seq::empty());
        while i < self.classes.len()
            invariant
                self.wf(),
                m == self.model(),
                m.shape(),
                m.len() == self.classes@.len(),
                i <= m.len(),
                idx < rules@.len(),
                rules@[idx as int].usable(m.len()),
                all_fired(m, rules@, list@),
                all_allowed(self, rules@, list@),
                before.len() == start,
                before.len() <= list@.len(),
                kept_hits(self, rules@[idx as int], i as nat, hits_from(list@, before.len())),
                forall|k: int|
                    #![trigger list@[k]]
                    before.len() <= k < list@.len() ==> list@[k].rule == idx,
                forall|k: int|
                    #![trigger before[k]]
                    0 <= k < before.len() ==> list@[k] == before[k],
                forall|id: Id|
                    #![trigger m.root(id)]
                    id.at() < i && m.root(id) == id ==> all_matches_in(
                        self,
                        rules@[idx as int],
                        idx as int,
                        id,
                        list@,
                    ),
            decreases self.classes@.len() - i,
        {
            let ghost had = list@;
            if self.classes[i].is_some() {
                let id = Id(i as u32);
                assert(m.root(id) == id);
                self.matches_in_class(rules, idx, id, list);
                proof {
                    let (first, part) = (
                        hits_from(had, before.len()),
                        hits_from(list@, had.len()),
                    );
                    lemma_kept_push(self, rules@[idx as int], i as nat, first, part);
                    assert forall|k: int|
                        #![trigger list@[k]]
                        before.len() <= k < list@.len() implies list@[k].rule == idx by {
                        if k < had.len() {
                            assert(list@[k] == had[k]);
                        }
                    }
                    assert(hits_from(list@, before.len()) =~= first + part);
                }
                assert forall|other: Id|
                    #![trigger m.root(other)]
                    other.at() < i + 1 && m.root(other) == other implies all_matches_in(
                    self,
                    rules@[idx as int],
                    idx as int,
                    other,
                    list@,
                ) by {
                    if other.at() < i {
                        lemma_more_matches(self, rules@[idx as int], idx as int, other, had, list@);
                    } else {
                        assert(other == id);
                    }
                }
            } else {
                proof {
                    let first = hits_from(list@, before.len());
                    assert(m.root(Id(i as u32)) != Id(i as u32));
                    lemma_kept_push(self, rules@[idx as int], i as nat, first, Seq::empty());
                    assert(first + Seq::<Hit>::empty() =~= first);
                }
                assert forall|other: Id|
                    #![trigger m.root(other)]
                    other.at() < i + 1 && m.root(other) == other implies all_matches_in(
                    self,
                    rules@[idx as int],
                    idx as int,
                    other,
                    list@,
                ) by {
                    if other.at() == i {
                        assert(other == Id(i as u32));
                    }
                }
            }
            i = i + 1;
        }
        list.len() - start
    }

    /// The class to merge a match into: for a static pattern the pattern
    /// instantiated from the match, for a dynamic matcher the class it ran on.
    fn lhs_class(&mut self, rule: &Rewrite<L, N>, root: Id, subst: &Subst) -> (id: Option<Id>)
        requires
            old(self).wf(),
            old(self).model().has(root),
            bound_in(old(self).model(), subst@),
            rule.usable(old(self).model().len()),
            rule.lhs matches Lhs::Pattern(p) ==> p.closed_by(subst@),
        ensures
            final(self).wf(),
            old(self).grows_into(final(self)),
            id matches Some(made) ==> final(self).model().has(made),
            id is None ==> !final(self).room(),
            id is Some ==> left_built(old(self), final(self), *rule, (root, subst@), id->0),
            final(self).reason() == old(self).reason(),
            match rule.lhs {
                Lhs::Pattern(p) => {
                    &&& final(self).model().len() <= old(self).model().len() + ops(p)
                    &&& readable(old(self).model(), final(self).model())
                    &&& no_new_edges(old(self).edges(), final(self).edges())
                    &&& only_added(old(self).model(), final(self).model())
                    &&& fresh_from(old(self).model(), final(self).model(), p, subst@)
                    &&& id is Some ==> stands_for(final(self).model(), id->0, p, subst@)
                    &&& tidy(old(self).model()) && fixed_arity::<L>() && p.regular() && stands_for(
                        old(self).model(),
                        root,
                        p,
                        subst@,
                    ) ==> id == Some(old(self).model().root(root)) && old(self).same(final(self))
                },
                Lhs::Dynamic(_) => id == Some(old(self).model().root(root)) && old(self).same(
                    final(self),
                ),
            },
    {
        proof {
            reveal(left_built);
        }
        match &rule.lhs {
            Lhs::Pattern(p) => self.instantiate(p, subst),
            Lhs::Dynamic(_) => {
                let id = self.find(root);
                proof {
                    old(self).lemma_same_evolved(self);
                    assert(old(self).grows_into(self));
                }
                Some(id)
            },
        }
    }

    /// The class that the right-hand side of a rule stands for. The first
    /// result is `false` if there were no ids left.
    fn rhs_class(
        &mut self,
        rule: &Rewrite<L, N>,
        root: Id,
        subst: &Subst,
        node: &Option<L>,
    ) -> (made: (bool, Option<Id>))
        requires
            old(self).wf(),
            old(self).model().has(root),
            bound_in(old(self).model(), subst@),
            rule.usable(old(self).model().len()),
            rule.rhs matches Rhs::Pattern(r) ==> r.closed_by(subst@),
            carried(old(self).model(), *rule, root, subst@, *node),
        ensures
            final(self).wf(),
            old(self).grows_into(final(self)),
            made.1 matches Some(id) ==> final(self).model().has(id),
            !made.0 ==> made.1 is None && !final(self).room() && rule.rhs is Pattern,
            made.0 ==> right_made(old(self), final(self), *rule, (root, subst@), made.1),
            rule.rhs matches Rhs::Pattern(r) ==> {
                &&& final(self).reason() == old(self).reason()
                &&& final(self).model().len() <= old(self).model().len() + ops(r)
                &&& readable(old(self).model(), final(self).model())
                &&& no_new_edges(old(self).edges(), final(self).edges())
                &&& only_added(old(self).model(), final(self).model())
                &&& fresh_from(old(self).model(), final(self).model(), r, subst@)
                &&& made.0 ==> made.1 is Some && stands_for(
                    final(self).model(),
                    made.1->0,
                    r,
                    subst@,
                )
                &&& r.regular() && made.0 && made.1->0.at() < old(self).model().len() ==> old(self).same(final(self))
                &&& made.0 && made.1->0.at() >= old(self).model().len() ==> final(self).model().root(made.1->0) == made.1->0
                &&& tidy(old(self).model()) && fixed_arity::<L>() && r.regular() && stands_for(
                    old(self).model(),
                    root,
                    r,
                    subst@,
                ) ==> made == (true, Some(old(self).model().root(root))) && old(self).same(
                    final(self),
                )
            },
            rule.rhs matches Rhs::Pattern(r) ==> forall|x: Id|
                #![trigger final(self).model().root(x)]
                old(self).model().has(x) ==> final(self).model().root(x) == old(self).model().root(
                    x,
                ),
            rule.rhs matches Rhs::Dynamic(applier) ==> applier.does(
                old(self),
                subst,
                final(self),
                made.1,
            ),
            rule.rhs matches Rhs::DynamicNode(applier) ==> exists|given: L| #[trigger]
                applier.does(old(self), subst, &given, final(self), made.1) && is_handed(
                    old(self).model(),
                    *rule,
                    root,
                    subst@,
                    given,
                ),
    {
        proof {
            self.lemma_safe();
            self.lemma_grows_refl();
        }
        proof {
            reveal(right_made);
        }
        match &rule.rhs {
            Rhs::Pattern(r) => {
                let id = self.instantiate(r, subst);
                proof {
                    assert forall|x: Id|
                        #![trigger self.model().root(x)]
                        old(self).model().has(x) implies self.model().root(x) == old(self).model().root(x) by {
                        assert(self.model().roots[x.at()] == old(self).model().roots[x.at()]);
                    }
                }
                (id.is_some(), id)
            },
            Rhs::Dynamic(applier) => (true, applier.apply(self, subst)),
            Rhs::DynamicNode(applier) => {
                // Hand over the matched e-node, so that the applier does not
                // have to rebuild it: the one that a static operator pattern
                // matched, else a representative node of the class.
                let is_op = match &rule.lhs {
                    Lhs::Pattern(Pattern::Op { .. }) => true,
                    _ => false,
                };
                let given = match node {
                    Some(own) if is_op => copy_node(own),
                    _ => self.canonical_node(root).unwrap(),
                };
                proof {
                    if !is_op {
                        self.lemma_class_not_empty(root);
                        assert(self.model().knows(
                            self.model().nodes[self.model().root(root).at()][0],
                        ));
                    }
                    assert(is_handed(self.model(), *rule, root, subst@, given));
                }
                (true, applier.apply(self, subst, &given))
            },
        }
    }
}

/// A match of a longer graph is a match still.
proof fn lemma_fired_grows<L: Language, N: ClassData>(
    a: &EGraph<L, N>,
    b: &EGraph<L, N>,
    rule: Rewrite<L, N>,
    id: Id,
    s: Bound,
)
    requires
        a.safe(),
        b.safe(),
        a.grows_into(b),
        fired(a.model(), rule, id, s),
    ensures
        fired(b.model(), rule, id, s),
{
    a.lemma_safe();
    b.lemma_safe();
    lemma_grows_models(a, b);
    assert forall|name: Seq<char>| #[trigger] s.contains_key(name) implies b.model().has(
        s[name],
    ) by {
        assert(a.model().has(s[name]));
    }
    if let Lhs::Pattern(p) = rule.lhs {
        if !p.uses(MATCHED_LHS@) {
            lemma_stands_grows(a.model(), b.model(), id, p, s);
        }
    }
}

/// A rule stays usable while the graph grows.
proof fn lemma_usable_grows<L: Language, N: ClassData>(rule: Rewrite<L, N>, n: nat, more: nat)
    requires
        rule.usable(n),
        n <= more,
    ensures
        rule.usable(more),
{
    if let Lhs::Pattern(p) = rule.lhs {
        lemma_fits_more(p, n, more);
    }
    if let Rhs::Pattern(r) = rule.rhs {
        lemma_fits_more(r, n, more);
    }
}

/// Merging two ids of one value respects a reading.
proof fn lemma_models_joined<L: Language>(
    m: Model<L>,
    a: Id,
    b: Id,
    eval: Reading<L>,
    vals: Seq<int>,
)
    requires
        m.shape(),
        m.has(a),
        m.has(b),
        m.root(a) != m.root(b),
        models(m, eval, vals),
        vals[a.at()] == vals[b.at()],
    ensures
        models(
            m.merged(survivor(m, m.root(a), m.root(b)), absorbed(m, m.root(a), m.root(b))),
            eval,
            vals,
        ),
{
    let (x, y) = (m.root(a), m.root(b));
    assert(m.root(x) == x && m.root(y) == y);
    assert(vals[x.at()] == vals[a.at()] && vals[y.at()] == vals[b.at()]) by {
        reveal(models);
        assert(m.roots[x.at()] == m.roots[a.at()]);
        assert(m.roots[y.at()] == m.roots[b.at()]);
    }
    lemma_models_merged(m, survivor(m, x, y), absorbed(m, x, y), eval, vals);
}

/// The values of both sides of a match, once both are in the graph.
proof fn lemma_match_values<L: Language, N: ClassData>(
    old: &EGraph<L, N>,
    mid: &EGraph<L, N>,
    made: &EGraph<L, N>,
    rule: Rewrite<L, N>,
    id: Id,
    subst: &Subst,
    lhs_id: Id,
    rhs: Option<Id>,
    eval: Reading<L>,
    vals: Seq<int>,
) -> (more: Seq<int>)
    requires
        fixed_arity::<L>(),
        old.wf(),
        mid.wf(),
        made.wf(),
        old.grows_into(mid),
        mid.grows_into(made),
        fired(old.model(), rule, id, subst@),
        models(old.model(), eval, vals),
        by_operator(eval),
        agrees(eval, rule, vals, subst@),
        mid.model().has(lhs_id),
        rhs matches Some(rhs_id) ==> made.model().has(rhs_id),
        match rule.lhs {
            Lhs::Pattern(p) => readable(old.model(), mid.model()) && stands_for(
                mid.model(),
                lhs_id,
                p,
                subst@,
            ),
            Lhs::Dynamic(_) => mid.model() == old.model() && lhs_id == old.model().root(id),
        },
        match rule.rhs {
            Rhs::Pattern(r) => readable(mid.model(), made.model()) && (rhs is Some ==> stands_for(
                made.model(),
                rhs->0,
                r,
                subst@,
            )),
            Rhs::Dynamic(applier) => applier.does(mid, subst, made, rhs),
            Rhs::DynamicNode(applier) => exists|given: L| #[trigger]
                applier.does(mid, subst, &given, made, rhs) && is_handed(
                    mid.model(),
                    rule,
                    id,
                    subst@,
                    given,
                ),
        },
    ensures
        models(made.model(), eval, more),
        extends(vals, more),
        rhs matches Some(rhs_id) ==> more[lhs_id.at()] == more[rhs_id.at()],
{
    old.lemma_safe();
    mid.lemma_safe();
    made.lemma_safe();
    lemma_grows_models(old, mid);
    lemma_grows_models(mid, made);
    let s = subst@;
    let (m, n, k) = (old.model(), mid.model(), made.model());
    lemma_models_len(m, eval, vals);
    assert(extends(vals, vals));
    assert(carries(n, eval, vals)) by {
        if rule.lhs is Dynamic {
            assert(models(n, eval, vals));
        }
    }
    let now = choose|more: Seq<int>| #[trigger] models(n, eval, more) && extends(vals, more);
    lemma_models_len(n, eval, now);
    assert(extends(now, now));
    lemma_env_extends(m, s, vals, now);
    assert(bound_in(n, s)) by {
        assert forall|name: Seq<char>| #[trigger] s.contains_key(name) implies n.has(s[name]) by {
            assert(m.has(s[name]));
        }
    }
    assert(bound_in(k, s)) by {
        assert forall|name: Seq<char>| #[trigger] s.contains_key(name) implies k.has(s[name]) by {
            assert(n.has(s[name]));
        }
    }
    let value = left_value(eval, rule, env_of(now, s));
    assert(now[lhs_id.at()] == value) by {
        match rule.lhs {
            Lhs::Pattern(p) => {
                lemma_stands_means(n, lhs_id, p, s, eval, now);
            },
            Lhs::Dynamic(_) => {
                reveal(models);
                assert(n.roots[lhs_id.at()] == n.roots[id.at()]);
                assert(env_of(now, s).contains_key(MATCHED_LHS@));
            },
        }
    }
    assert(carries_made(k, eval, now, rhs, value)) by {
        match rule.rhs {
            Rhs::Pattern(r) => {
                assert(carries(k, eval, now));
                let more = choose|more: Seq<int>| #[trigger]
                    models(k, eval, more) && extends(now, more);
                if let Some(rhs_id) = rhs {
                    lemma_env_extends(n, s, now, more);
                    lemma_stands_means(k, rhs_id, r, s, eval, more);
                }
            },
            Rhs::Dynamic(applier) => {
                assert(called(mid, made));
                assert(applier.does(mid, subst, made, rhs));
            },
            Rhs::DynamicNode(applier) => {
                let given = choose|given: L| #[trigger]
                    applier.does(mid, subst, &given, made, rhs) && is_handed(
                        n,
                        rule,
                        id,
                        s,
                        given,
                    );
                assert(called(mid, made));
                assert(applier.does(mid, subst, &given, made, rhs));
            },
        }
    }
    let more = choose|more: Seq<int>| #[trigger]
        models(k, eval, more) && extends(now, more) && (rhs matches Some(made_id) ==> more[made_id.at()]
            == value);
    assert(extends(vals, more)) by {
        assert forall|i: int|
            #![trigger more[i]]
            #![trigger vals[i]]
            0 <= i < vals.len() implies more[i] == vals[i] by {
            assert(now[i] == vals[i]);
        }
    }
    assert(more[lhs_id.at()] == now[lhs_id.at()]);
    more
}

impl<L: Language, N: Analysis<L>> EGraph<L, N> {
    /// Merge `a` and `b` by the rule `name`, so that `explain` can report it.
    /// The reason is reset afterwards so that internal merges are labelled
    /// correctly.
    fn merge_as(&mut self, name: &'static str, a: Id, b: Id)
        requires
            old(self).wf(),
            old(self).model().has(a),
            old(self).model().has(b),
        ensures
            final(self).wf(),
            old(self).grows_into(final(self)),
            final(self).model().root(a) == final(self).model().root(b),
            old(self).model().root(a) != old(self).model().root(b) ==> final(self).edges()
                == with_edge(old(self).edges(), a, b, Reason::Rule(name@)),
            old(self).model().root(a) != old(self).model().root(b) ==> merged_for(
                old(self),
                final(self),
                a,
                b,
                Reason::Rule(name@),
            ),
            final(self).model().len() == old(self).model().len(),
            final(self).reason() == Reason::Rule("congruence"@),
            sprung(old(self).model(), final(self).model(), Seq::<Rewrite<L, N>>::empty()),
            forall|eval: Reading<L>, vals: Seq<int>| #[trigger]
                models(old(self).model(), eval, vals) && vals[a.at()] == vals[b.at()] ==> models(
                    final(self).model(),
                    eval,
                    vals,
                ),
    {
        let ghost m = self.model();
        proof {
            self.lemma_safe();
        }
        self.current_reason = Justification::Rule(name);
        let ghost named = *self;
        proof {
            assert(named.model() == old(self).model());
            assert(named.edges() == old(self).edges());
            assert(named.safe());
            lemma_same_nodes_kept(old(self).model(), named.model());
            old(self).lemma_quiet(&named);
        }
        self.merge(a, b);
        let ghost merged = *self;
        self.current_reason = Justification::Rule("congruence");
        proof {
            assert(self.model() == merged.model());
            assert(self.edges() == merged.edges());
            assert(self.safe());
            merged.lemma_safe();
            lemma_same_nodes_kept(merged.model(), self.model());
            merged.lemma_quiet(self);
            EGraph::lemma_grows_trans(old(self), &named, &merged);
            EGraph::lemma_grows_trans(old(self), &merged, self);
            if m.root(a) == m.root(b) {
                lemma_sprung_refl::<L, N>(m, Seq::empty());
            } else {
                lemma_relabelled(&named, &merged, old(self), self, a, b, Reason::Rule(name@));
                lemma_sprung_merged::<L, N>(
                    m,
                    survivor(m, m.root(a), m.root(b)),
                    absorbed(m, m.root(a), m.root(b)),
                );
            }
            assert forall|eval: Reading<L>, vals: Seq<int>| #[trigger]
                models(m, eval, vals) && vals[a.at()] == vals[b.at()] implies models(
                self.model(),
                eval,
                vals,
            ) by {
                if m.root(a) != m.root(b) {
                    lemma_models_joined(m, a, b, eval, vals);
                }
            }
        }
    }

    /// Produce the right-hand side of a match and merge it with the left-hand
    /// side.
    fn apply_match(
        &mut self,
        rule: &Rewrite<L, N>,
        root: Id,
        subst: &Subst,
        node: &Option<L>,
    ) -> (outcome: Outcome)
        requires
            old(self).wf(),
            rule.usable(old(self).model().len()),
            fired(old(self).model(), *rule, root, subst@),
            carried(old(self).model(), *rule, root, subst@, *node),
        ensures
            final(self).wf(),
            old(self).grows_into(final(self)),
            outcome is OutOfIds ==> !final(self).room(),
            outcome !is OutOfIds ==> acted(old(self), final(self), *rule, root, subst@),
            outcome !is OutOfIds ==> apply_step(
                old(self),
                final(self),
                *rule,
                (root, subst@),
                outcome is Merged,
            ),
            outcome is OutOfIds ==> given_up(old(self), final(self), *rule),
            rule.rhs is Pattern ==> {
                &&& final(self).model().len() <= old(self).model().len() + rule_ops(*rule)
                &&& edges_by_match(old(self), final(self), *rule, subst@)
                &&& sprung(old(self).model(), final(self).model(), seq![*rule])
                &&& outcome !is Merged ==> no_new_edges(old(self).edges(), final(self).edges())
            },
            outcome is Merged ==> rule_edge_added(
                old(self).edges(),
                final(self).edges(),
                seq![*rule],
            ),
            fixed_arity::<L>() ==> forall|eval: Reading<L>, vals: Seq<int>| #[trigger]
                models(old(self).model(), eval, vals) && by_operator(eval) && agrees(
                    eval,
                    *rule,
                    vals,
                    subst@,
                ) ==> carries(final(self).model(), eval, vals),
            rule.quiet() && fixed_arity::<L>() && tidy(old(self).model()) && stands_for(
                old(self).model(),
                root,
                rule.rhs->Pattern_0,
                subst@,
            ) ==> outcome is Unchanged,
            outcome is Unchanged && rule.quiet() && fixed_arity::<L>() && tidy(old(self).model())
                ==> {
                &&& old(self).same(final(self))
                &&& rule.rhs matches Rhs::Pattern(r) && stands_for(
                    old(self).model(),
                    root,
                    r,
                    subst@,
                )
            },
    {
        let ghost m = self.model();
        proof {
            self.lemma_safe();
            if let Rhs::Pattern(r) = &rule.rhs {
                lemma_closed_by(*r, subst@);
            }
        }
        let lhs = self.lhs_class(rule, root, subst);
        let ghost mid = *self;
        proof {
            mid.lemma_safe();
            lemma_grows_models(old(self), &mid);
            match &rule.lhs {
                Lhs::Pattern(p) => {
                    lemma_sprung_fresh(m, mid.model(), *rule, *p, subst@);
                },
                Lhs::Dynamic(_) => {
                    lemma_sprung_refl(m, seq![*rule]);
                },
            }
            assert(no_new_edges(old(self).edges(), mid.edges()));
            lemma_no_edges_by_match(old(self), &mid, *rule, subst@);
        }
        let lhs_id = match lhs {
            Some(id) => id,
            None => {
                proof {
                    reveal(given_up);
                }
                return Outcome::OutOfIds;
            },
        };
        proof {
            mid.lemma_safe();
            lemma_grows_models(old(self), &mid);
            lemma_fired_grows(old(self), &mid, *rule, root, subst@);
            lemma_carried_grows(old(self), &mid, *rule, root, subst@, *node);
            lemma_usable_grows(*rule, m.len(), mid.model().len());
        }
        let (enough, rhs) = self.rhs_class(rule, root, subst, node);
        let ghost made = *self;
        proof {
            made.lemma_safe();
            lemma_grows_models(&mid, &made);
            EGraph::lemma_grows_trans(old(self), &mid, &made);
            lemma_fired_grows(&mid, &made, *rule, root, subst@);
            if let Rhs::Pattern(r) = &rule.rhs {
                lemma_sprung_fresh(mid.model(), made.model(), *rule, *r, subst@);
                lemma_sprung_trans(m, mid.model(), made.model(), seq![*rule]);
                assert(no_new_edges(old(self).edges(), made.edges()));
                lemma_no_edges_by_match(old(self), &made, *rule, subst@);
            }
            assert forall|eval: Reading<L>, vals: Seq<int>|
                fixed_arity::<L>() && #[trigger] models(m, eval, vals) && by_operator(eval)
                    && agrees(eval, *rule, vals, subst@) implies carries(
                made.model(),
                eval,
                vals,
            ) by {
                lemma_match_values(
                    old(self),
                    &mid,
                    &made,
                    *rule,
                    root,
                    subst,
                    lhs_id,
                    rhs,
                    eval,
                    vals,
                );
            }
        }
        if !enough {
            proof {
                if rule.lhs is Pattern {
                    lemma_only_added_trans(m, mid.model(), self.model());
                }
                reveal(given_up);
            }
            return Outcome::OutOfIds;
        }
        let rhs_id = match rhs {
            Some(id) => id,
            None => {
                proof {
                    self.lemma_grows_refl();
                    lemma_not_joined(&made, self, *rule, lhs_id, rhs);
                    lemma_apply_step(
                        old(self),
                        &mid,
                        &made,
                        self,
                        *rule,
                        (root, subst@),
                        lhs_id,
                        rhs,
                        false,
                    );
                    lemma_acted(old(self), &mid, &made, self, *rule, root, subst, lhs_id, rhs);
                }
                return Outcome::Unchanged;
            },
        };
        let a = self.find(lhs_id);
        let ghost half = *self;
        let b = self.find(rhs_id);
        proof {
            made.lemma_same_evolved(&half);
            half.lemma_same_evolved(self);
            lemma_same_chain(&made, &half, self);
            assert(made.grows_into(&half));
            assert(half.grows_into(self));
            EGraph::lemma_grows_trans(&made, &half, self);
            EGraph::lemma_grows_trans(&mid, &made, self);
            EGraph::lemma_grows_trans(old(self), &made, self);
            if rule.rhs is Pattern {
                lemma_no_edges_by_match(old(self), self, *rule, subst@);
            }
        }
        if a == b {
            proof {
                lemma_not_joined(&made, self, *rule, lhs_id, rhs);
                lemma_apply_step(
                    old(self),
                    &mid,
                    &made,
                    self,
                    *rule,
                    (root, subst@),
                    lhs_id,
                    rhs,
                    false,
                );
                lemma_acted(old(self), &mid, &made, self, *rule, root, subst, lhs_id, rhs);
                if rule.quiet() && fixed_arity::<L>() && tidy(m) {
                    lemma_quiet_match(old(self), &mid, &made, *rule, root, subst@, lhs_id, rhs_id);
                    lemma_same_chain(old(self), &mid, &made);
                    lemma_same_chain(old(self), &made, self);
                }
            }
            return Outcome::Unchanged;
        }
        let ghost found = *self;
        self.merge_as(rule.name, lhs_id, rhs_id);
        proof {
            found.lemma_safe();
            self.lemma_safe();
            lemma_added_edge(old(self), &found, self, *rule, lhs_id, rhs_id);
            if rule.rhs is Pattern {
                lemma_sides_found(&mid, &made, &found, *rule, root, subst@, lhs_id, rhs_id);
                lemma_merge_labelled(old(self), &found, self, *rule, subst@, lhs_id, rhs_id);
                lemma_grows_models(&found, self);
                assert(sprung(found.model(), self.model(), seq![*rule])) by {
                    lemma_sprung_more(found.model(), self.model(), Seq::empty(), seq![*rule]);
                }
                lemma_sprung_trans(m, found.model(), self.model(), seq![*rule]);
            }
            EGraph::lemma_grows_trans(old(self), &found, self);
            EGraph::lemma_grows_trans(&mid, &found, self);
            EGraph::lemma_grows_trans(&made, &found, self);
            lemma_grows_models(&found, self);
            lemma_joined_sides(&made, &found, self, *rule, lhs_id, rhs_id);
            lemma_apply_step(
                old(self),
                &mid,
                &made,
                self,
                *rule,
                (root, subst@),
                lhs_id,
                rhs,
                true,
            );
            lemma_acted(old(self), &mid, &made, self, *rule, root, subst, lhs_id, rhs);
            assert forall|eval: Reading<L>, vals: Seq<int>|
                fixed_arity::<L>() && #[trigger] models(m, eval, vals) && by_operator(eval)
                    && agrees(eval, *rule, vals, subst@) implies carries(
                self.model(),
                eval,
                vals,
            ) by {
                let more = lemma_match_values(
                    old(self),
                    &mid,
                    &made,
                    *rule,
                    root,
                    subst,
                    lhs_id,
                    rhs,
                    eval,
                    vals,
                );
                assert(found.model() == made.model());
                assert(models(found.model(), eval, more));
                assert(models(self.model(), eval, more));
            }
        }
        Outcome::Merged
    }
}

/// A match was acted upon if the class of its left-hand side, found in `mid`,
/// and that of its right-hand side, found in `made`, are one in `now`.
proof fn lemma_acted<L: Language, N: ClassData>(
    old: &EGraph<L, N>,
    mid: &EGraph<L, N>,
    made: &EGraph<L, N>,
    now: &EGraph<L, N>,
    rule: Rewrite<L, N>,
    id: Id,
    subst: &Subst,
    lhs_id: Id,
    rhs: Option<Id>,
)
    requires
        old.wf(),
        mid.wf(),
        made.wf(),
        now.wf(),
        old.grows_into(mid),
        mid.grows_into(made),
        made.grows_into(now),
        mid.model().has(lhs_id),
        mid.model().has(id),
        bound_in(mid.model(), subst@),
        bound_in(made.model(), subst@),
        rhs matches Some(rhs_id) ==> made.model().has(rhs_id) && now.model().root(lhs_id)
            == now.model().root(rhs_id),
        rule.lhs matches Lhs::Pattern(p) ==> stands_for(mid.model(), lhs_id, p, subst@),
        rule.lhs is Dynamic ==> mid.model().root(lhs_id) == mid.model().root(id),
        match rule.rhs {
            Rhs::Pattern(r) => rhs is Some && stands_for(made.model(), rhs->0, r, subst@),
            Rhs::Dynamic(applier) => applier.does(mid, subst, made, rhs),
            Rhs::DynamicNode(applier) => exists|given: L| #[trigger]
                applier.does(mid, subst, &given, made, rhs) && is_handed(
                    mid.model(),
                    rule,
                    id,
                    subst@,
                    given,
                ),
        },
    ensures
        acted(old, now, rule, id, subst@),
{
    let s = subst@;
    mid.lemma_safe();
    made.lemma_safe();
    now.lemma_safe();
    EGraph::lemma_grows_trans(mid, made, now);
    lemma_grows_models(mid, now);
    lemma_grows_models(made, now);
    let n = now.model();
    let x = match rule.lhs {
        Lhs::Pattern(p) => lhs_id,
        Lhs::Dynamic(_) => id,
    };
    assert(is_left_side(n, rule, id, x, s) && n.root(x) == n.root(lhs_id)) by {
        match rule.lhs {
            Lhs::Pattern(p) => {
                lemma_stands_grows(mid.model(), n, lhs_id, p, s);
            },
            Lhs::Dynamic(_) => {
                assert(mid.model().roots[lhs_id.at()] == mid.model().roots[id.at()]);
            },
        }
    }
    assert(equal_if_made(n, rhs, x));
    match rule.rhs {
        Rhs::Pattern(r) => {
            lemma_stands_grows(made.model(), n, rhs->0, r, s);
            lemma_stands_class(n, rhs->0, x, r, s);
        },
        Rhs::Dynamic(applier) => {
            assert(applier.does(mid, subst, made, rhs));
        },
        Rhs::DynamicNode(applier) => {
            let given = choose|given: L| #[trigger]
                applier.does(mid, subst, &given, made, rhs) && is_handed(
                    mid.model(),
                    rule,
                    id,
                    s,
                    given,
                );
            assert(applier.does(mid, subst, &given, made, rhs));
        },
    }
    assert(right_side_in(old, now, rule, id, x, s));
}

/// What was acted upon on a part of the way was so on the whole way.
proof fn lemma_acted_grows<L: Language, N: ClassData>(
    first: &EGraph<L, N>,
    old: &EGraph<L, N>,
    a: &EGraph<L, N>,
    b: &EGraph<L, N>,
    rule: Rewrite<L, N>,
    id: Id,
    s: Bound,
)
    requires
        first.wf(),
        old.wf(),
        a.wf(),
        b.wf(),
        first.grows_into(old),
        old.grows_into(a),
        a.grows_into(b),
        bound_in(old.model(), s),
        acted(old, a, rule, id, s),
    ensures
        acted(first, b, rule, id, s),
{
    a.lemma_safe();
    b.lemma_safe();
    lemma_grows_models(old, a);
    lemma_grows_models(a, b);
    let (m, n) = (a.model(), b.model());
    assert(bound_in(m, s)) by {
        assert forall|name: Seq<char>| #[trigger] s.contains_key(name) implies m.has(s[name]) by {
            assert(old.model().has(s[name]));
        }
    }
    let x = choose|x: Id| #[trigger]
        is_left_side(m, rule, id, x, s) && right_side_in(old, a, rule, id, x, s);
    assert(is_left_side(n, rule, id, x, s)) by {
        if let Lhs::Pattern(p) = rule.lhs {
            lemma_stands_grows(m, n, x, p, s);
        }
    }
    assert forall|made: Option<Id>| #[trigger] equal_if_made(m, made, x) implies equal_if_made(
        n,
        made,
        x,
    ) by {
        if let Some(y) = made {
            assert(m.roots[y.at()] == m.roots[x.at()]);
        }
    }
    match rule.rhs {
        Rhs::Pattern(r) => {
            lemma_stands_grows(m, n, x, r, s);
        },
        Rhs::Dynamic(applier) => {
            let (before, subst, after, made) = choose|
                before: &EGraph<L, N>,
                subst: &Subst,
                after: &EGraph<L, N>,
                made: Option<Id>,
            |
                {
                    &&& #[trigger] applier.does(before, subst, after, made)
                    &&& subst@ == s
                    &&& before.wf() && old.grows_into(before)
                    &&& after.wf() && after.grows_into(a)
                    &&& equal_if_made(m, made, x)
                };
            EGraph::lemma_grows_trans(first, old, before);
            EGraph::lemma_grows_trans(after, a, b);
            assert(applier.does(before, subst, after, made));
        },
        Rhs::DynamicNode(applier) => {
            let (before, subst, node, after, made) = choose|
                before: &EGraph<L, N>,
                subst: &Subst,
                node: L,
                after: &EGraph<L, N>,
                made: Option<Id>,
            |
                {
                    &&& #[trigger] applier.does(before, subst, &node, after, made)
                    &&& subst@ == s
                    &&& is_handed(before.model(), rule, id, s, node)
                    &&& before.wf() && old.grows_into(before)
                    &&& after.wf() && after.grows_into(a)
                    &&& equal_if_made(m, made, x)
                };
            EGraph::lemma_grows_trans(first, old, before);
            EGraph::lemma_grows_trans(after, a, b);
            assert(applier.does(before, subst, &node, after, made));
        },
    }
    assert(right_side_in(first, b, rule, id, x, s));
}

/// A quiet rule that merges nothing adds nothing either.
proof fn lemma_quiet_match<L: Language, N: ClassData>(
    old: &EGraph<L, N>,
    mid: &EGraph<L, N>,
    made: &EGraph<L, N>,
    rule: Rewrite<L, N>,
    root: Id,
    s: Bound,
    lhs_id: Id,
    rhs_id: Id,
)
    requires
        old.safe(),
        mid.safe(),
        made.safe(),
        rule.quiet(),
        old.model().has(root),
        old.same(mid),
        lhs_id == old.model().root(root),
        made.model().has(rhs_id),
        made.model().root(lhs_id) == made.model().root(rhs_id),
        rule.rhs matches Rhs::Pattern(r) ==> {
            &&& stands_for(made.model(), rhs_id, r, s)
            &&& r.regular() && rhs_id.at() < mid.model().len() ==> mid.same(made)
            &&& rhs_id.at() >= mid.model().len() ==> made.model().root(rhs_id) == rhs_id
        },
        forall|x: Id|
            #![trigger made.model().root(x)]
            mid.model().has(x) ==> made.model().root(x) == mid.model().root(x),
    ensures
        mid.same(made),
        rule.rhs matches Rhs::Pattern(r) && stands_for(old.model(), root, r, s),
{
    old.lemma_safe();
    mid.lemma_safe();
    let m = old.model();
    assert(m.root(lhs_id) == lhs_id);
    assert(made.model().root(lhs_id) == mid.model().root(lhs_id));
    if let Rhs::Pattern(r) = rule.rhs {
        assert(rhs_id.at() < mid.model().len());
        lemma_stands_class(m, rhs_id, root, r, s);
    }
}

/// What one iteration came to.
#[derive(Clone, Copy)]
struct Progress {
    merged: bool,
    banned: bool,
    out_of_ids: bool,
}

/// `list` holds every match of every rule among the first `n`, but for those
/// that a guard could refuse.
spec fn complete<L: Language, N: ClassData>(
    egraph: &EGraph<L, N>,
    rules: Seq<Rewrite<L, N>>,
    n: int,
    list: Seq<Match<L>>,
) -> bool {
    forall|i: int, id: Id|
        #![trigger all_matches_in(egraph, rules[i], i, id, list)]
        0 <= i < n && egraph.model().has(id) && egraph.model().root(id) == id ==> all_matches_in(
            egraph,
            rules[i],
            i,
            id,
            list,
        )
}

/// The scheduler is going to enable all of `n` rules on iteration `iter`.
pub open spec fn all_sure<L: Language, N: ClassData, S: RewriteScheduler<L, N>>(
    scheduler: &S,
    iter: usize,
    n: nat,
) -> bool {
    forall|i: usize| i < n ==> #[trigger] scheduler.sure(iter, i)
}

/// All rules can be run.
pub open spec fn all_usable<L: Language, N: ClassData>(rules: Seq<Rewrite<L, N>>, n: nat) -> bool {
    forall|i: int| #![trigger rules[i]] 0 <= i < rules.len() ==> rules[i].usable(n)
}

/// Applying rules adds nothing unless it merges.
pub open spec fn all_quiet<L: Language, N: ClassData>(rules: Seq<Rewrite<L, N>>) -> bool {
    forall|i: int| #![trigger rules[i]] 0 <= i < rules.len() ==> rules[i].quiet()
}

/// The right-hand side of a match holds.
spec fn settled_match<L: Language, N: ClassData>(
    m: Model<L>,
    rules: Seq<Rewrite<L, N>>,
    it: Match<L>,
) -> bool {
    rules[it.rule as int].rhs matches Rhs::Pattern(r) && stands_for(m, it.id, r, it.subst@)
}

/// A match that was collected and whose right-hand side holds is settled.
proof fn lemma_match_settled<L: Language, N: ClassData>(
    egraph: &EGraph<L, N>,
    rules: Seq<Rewrite<L, N>>,
    list: Seq<Match<L>>,
    i: int,
    id: Id,
    s: Bound,
)
    requires
        taken(egraph, rules[i], i, id, list, s),
        forall|k: int|
            #![trigger list[k]]
            0 <= k < list.len() ==> settled_match(egraph.model(), rules, list[k]),
    ensures
        match_settled(egraph, rules[i], id, s),
{
    let t = s.insert(MATCHED_LHS@, id);
    if must_pass(rules[i], egraph, t) {
        let k = choose|k: int|
            #![trigger list[k]]
            0 <= k < list.len() && list[k].rule == i && list[k].id == id && list[k].subst@ == t;
        assert(settled_match(egraph.model(), rules, list[k]));
    }
}

/// If all matches were collected and their right-hand sides hold, the graph is
/// saturated.
proof fn lemma_saturated<L: Language, N: ClassData>(
    egraph: &EGraph<L, N>,
    rules: Seq<Rewrite<L, N>>,
    list: Seq<Match<L>>,
)
    requires
        complete(egraph, rules, rules.len() as int, list),
        forall|k: int|
            #![trigger list[k]]
            0 <= k < list.len() ==> settled_match(egraph.model(), rules, list[k]),
    ensures
        saturated(egraph, rules),
{
    let m = egraph.model();
    assert forall|i: int, id: Id|
        #![trigger rule_says(egraph, rules[i], id)]
        0 <= i < rules.len() && m.has(id) && m.root(id) == id implies rule_says(
        egraph,
        rules[i],
        id,
    ) by {
        assert(all_matches_in(egraph, rules[i], i, id, list));
        match rules[i].lhs {
            Lhs::Pattern(p) => {
                assert forall|s: Bound| #[trigger]
                    matches_of(m, p, id, Map::empty()).contains(s) implies match_settled(
                    egraph,
                    rules[i],
                    id,
                    s,
                ) by {
                    lemma_match_settled(egraph, rules, list, i, id, s);
                }
            },
            Lhs::Dynamic(matcher) => {
                let substs = choose|substs: &Vec<Subst>|
                    {
                        &&& #[trigger] matcher.finds(egraph, id, substs)
                        &&& all_bound_in(m, bounds(substs@))
                        &&& forall|k: int|
                            #![trigger substs@[k]]
                            0 <= k < substs@.len() ==> taken(
                                egraph,
                                rules[i],
                                i,
                                id,
                                list,
                                substs@[k]@,
                            )
                    };
                assert(matcher.finds(egraph, id, substs));
                assert forall|k: int|
                    #![trigger substs@[k]]
                    0 <= k < substs@.len() implies match_settled(
                    egraph,
                    rules[i],
                    id,
                    substs@[k]@,
                ) by {
                    lemma_match_settled(egraph, rules, list, i, id, substs@[k]@);
                }
            },
        }
    }
}

/// A match that was collected and acted upon is done.
proof fn lemma_match_done<L: Language, N: ClassData>(
    old: &EGraph<L, N>,
    applied: &EGraph<L, N>,
    new: &EGraph<L, N>,
    rules: Seq<Rewrite<L, N>>,
    list: Seq<Match<L>>,
    i: int,
    id: Id,
    s: Bound,
)
    requires
        old.wf(),
        applied.wf(),
        new.wf(),
        old.grows_into(applied),
        applied.grows_into(new),
        all_fired(old.model(), rules, list),
        all_acted(old, applied, rules, list, list.len() as int),
        taken(old, rules[i], i, id, list, s),
    ensures
        match_done(old, new, rules[i], id, s),
{
    let t = s.insert(MATCHED_LHS@, id);
    if must_pass(rules[i], old, t) {
        let k = choose|k: int|
            #![trigger list[k]]
            0 <= k < list.len() && list[k].rule == i && list[k].id == id && list[k].subst@ == t;
        assert(fired(old.model(), rules[list[k].rule as int], list[k].id, list[k].subst@));
        old.lemma_grows_refl();
        lemma_acted_grows(old, old, applied, new, rules[i], id, t);
    }
}

/// If all matches were collected and acted upon, the rules are realized.
proof fn lemma_realized<L: Language, N: ClassData>(
    old: &EGraph<L, N>,
    applied: &EGraph<L, N>,
    new: &EGraph<L, N>,
    rules: Seq<Rewrite<L, N>>,
    list: Seq<Match<L>>,
)
    requires
        old.wf(),
        applied.wf(),
        new.wf(),
        old.grows_into(applied),
        applied.grows_into(new),
        complete(old, rules, rules.len() as int, list),
        all_fired(old.model(), rules, list),
        all_acted(old, applied, rules, list, list.len() as int),
    ensures
        realized(old, new, rules),
{
    let m = old.model();
    assert forall|i: int, id: Id|
        #![trigger rule_did(old, new, rules[i], id)]
        0 <= i < rules.len() && m.has(id) && m.root(id) == id implies rule_did(
        old,
        new,
        rules[i],
        id,
    ) by {
        assert(all_matches_in(old, rules[i], i, id, list));
        match rules[i].lhs {
            Lhs::Pattern(p) => {
                assert forall|s: Bound| #[trigger]
                    matches_of(m, p, id, Map::empty()).contains(s) implies match_done(
                    old,
                    new,
                    rules[i],
                    id,
                    s,
                ) by {
                    lemma_match_done(old, applied, new, rules, list, i, id, s);
                }
            },
            Lhs::Dynamic(matcher) => {
                let substs = choose|substs: &Vec<Subst>|
                    {
                        &&& #[trigger] matcher.finds(old, id, substs)
                        &&& all_bound_in(m, bounds(substs@))
                        &&& forall|k: int|
                            #![trigger substs@[k]]
                            0 <= k < substs@.len() ==> taken(
                                old,
                                rules[i],
                                i,
                                id,
                                list,
                                substs@[k]@,
                            )
                    };
                assert(matcher.finds(old, id, substs));
                assert forall|k: int|
                    #![trigger substs@[k]]
                    0 <= k < substs@.len() implies match_done(
                    old,
                    new,
                    rules[i],
                    id,
                    substs@[k]@,
                ) by {
                    lemma_match_done(old, applied, new, rules, list, i, id, substs@[k]@);
                }
            },
        }
    }
}

/// What was acted upon stays so.
proof fn lemma_realized_grows<L: Language, N: ClassData>(
    old: &EGraph<L, N>,
    a: &EGraph<L, N>,
    b: &EGraph<L, N>,
    rules: Seq<Rewrite<L, N>>,
)
    requires
        old.wf(),
        a.wf(),
        b.wf(),
        old.grows_into(a),
        a.grows_into(b),
        realized(old, a, rules),
    ensures
        realized(old, b, rules),
{
    old.lemma_safe();
    let m = old.model();
    assert forall|i: int, id: Id|
        #![trigger rule_did(old, b, rules[i], id)]
        0 <= i < rules.len() && m.has(id) && m.root(id) == id implies rule_did(
        old,
        b,
        rules[i],
        id,
    ) by {
        assert(rule_did(old, a, rules[i], id));
        match rules[i].lhs {
            Lhs::Pattern(p) => {
                assert forall|s: Bound| #[trigger]
                    matches_of(m, p, id, Map::empty()).contains(s) implies match_done(
                    old,
                    b,
                    rules[i],
                    id,
                    s,
                ) by {
                    law_matches_sound(m, p, id, Map::empty(), s);
                    lemma_done_grows(old, a, b, rules[i], id, s);
                }
            },
            Lhs::Dynamic(matcher) => {
                let substs = choose|substs: &Vec<Subst>|
                    {
                        &&& #[trigger] matcher.finds(old, id, substs)
                        &&& all_bound_in(m, bounds(substs@))
                        &&& forall|k: int|
                            #![trigger substs@[k]]
                            0 <= k < substs@.len() ==> match_done(
                                old,
                                a,
                                rules[i],
                                id,
                                substs@[k]@,
                            )
                    };
                assert(matcher.finds(old, id, substs));
                assert forall|k: int|
                    #![trigger substs@[k]]
                    0 <= k < substs@.len() implies match_done(
                    old,
                    b,
                    rules[i],
                    id,
                    substs@[k]@,
                ) by {
                    assert(bounds(substs@)[k] == substs@[k]@);
                    assert(bound_in(m, bounds(substs@)[k]));
                    lemma_done_grows(old, a, b, rules[i], id, substs@[k]@);
                }
            },
        }
    }
}

/// One iteration respects the readings under which the rules hold.
proof fn lemma_round_respected<L: Language, N: Analysis<L>>(
    old: &EGraph<L, N>,
    applied: &EGraph<L, N>,
    new: &EGraph<L, N>,
    rules: Seq<Rewrite<L, N>>,
    list: Seq<Match<L>>,
)
    requires
        old.wf(),
        applied.wf(),
        new.wf(),
        all_fired(old.model(), rules, list),
        all_allowed(old, rules, list),
        forall|eval: Reading<L>, vals: Seq<int>| #[trigger]
            models(old.model(), eval, vals) && by_operator(eval) && all_agree(
                eval,
                rules,
                vals,
                list,
            ) ==> carries(applied.model(), eval, vals),
        passes_done(applied, new),
        N::inert() ==> {
            &&& new.model().len() == applied.model().len()
            &&& forced(applied.model(), new.model().roots)
            &&& stems_from(applied.model(), new.model())
        },
    ensures
        respected(old.model(), new.model(), rules),
{
    old.lemma_safe();
    applied.lemma_safe();
    new.lemma_safe();
    if N::inert() {
        lemma_readable_forced(applied.model(), new.model());
    }
    assert forall|eval: Reading<L>, vals: Seq<int>| #[trigger]
        models(old.model(), eval, vals) && by_operator(eval) && all_hold(eval, rules)
            && analysis_holds::<L, N>(eval) implies carries(new.model(), eval, vals) by {
        assert forall|k: int| #![trigger list[k]] 0 <= k < list.len() implies agrees(
            eval,
            rules[list[k].rule as int],
            vals,
            list[k].subst@,
        ) by {
            let rule = rules[list[k].rule as int];
            assert(holds_under(eval, rule));
            assert(allowed(rule, old, &list[k].subst));
            assert(fired(old.model(), rule, list[k].id, list[k].subst@));
        }
        assert(carries(applied.model(), eval, vals));
        let mid = choose|more: Seq<int>| #[trigger]
            models(applied.model(), eval, more) && extends(vals, more);
        if !N::inert() {
            law_rebuild_is_sound(applied, new, eval, mid);
        }
        assert(carries(new.model(), eval, mid));
        lemma_carries_trans(new.model(), eval, vals, mid);
    }
}

/// Two runs after each other respect what each of them respects.
proof fn lemma_respected_trans<L: Language, N: Analysis<L>>(
    a: Model<L>,
    b: Model<L>,
    c: Model<L>,
    rules: Seq<Rewrite<L, N>>,
)
    requires
        respected(a, b, rules),
        respected(b, c, rules),
    ensures
        respected(a, c, rules),
{
    assert forall|eval: Reading<L>, vals: Seq<int>| #[trigger]
        models(a, eval, vals) && by_operator(eval) && all_hold(eval, rules)
            && analysis_holds::<L, N>(eval) implies carries(
        c,
        eval,
        vals,
    ) by {
        let mid = choose|more: Seq<int>| #[trigger] models(b, eval, more) && extends(vals, more);
        assert(carries(c, eval, mid));
        lemma_carries_trans(c, eval, vals, mid);
    }
}

/// `list` holds the matches that were kept, and no others.
spec fn filed<L: Language>(list: Seq<Match<L>>, verdicts: Seq<Verdict>) -> bool {
    &&& forall|k: int|
        #![trigger list[k]]
        0 <= k < list.len() ==> was_kept(
            verdicts,
            list[k].rule as int,
            (list[k].id, list[k].subst@),
        )
    &&& forall|i: int, hit: Hit| #[trigger]
        was_kept(verdicts, i, hit) ==> holds_match(list, i, hit.0, hit.1)
    &&& list_hits(list) == all_hits(verdicts)
}

/// The matches in `list`, each with the number of its rule.
spec fn list_hits<L: Language>(list: Seq<Match<L>>) -> Seq<(int, Hit)> {
    Seq::new(list.len(), |k: int| (list[k].rule as int, (list[k].id, list[k].subst@)))
}

/// The matches of one rule more were filed.
proof fn lemma_filed_push<L: Language>(
    had: Seq<Match<L>>,
    list: Seq<Match<L>>,
    verdicts: Seq<Verdict>,
    idx: int,
)
    requires
        filed(had, verdicts),
        had.len() <= list.len(),
        idx == verdicts.len(),
        forall|k: int| #![trigger had[k]] 0 <= k < had.len() ==> list[k] == had[k],
        forall|k: int| #![trigger list[k]] had.len() <= k < list.len() ==> list[k].rule == idx,
    ensures
        filed(list, verdicts.push(Some(hits_from(list, had.len())))),
{
    let kept = hits_from(list, had.len());
    let more = verdicts.push(Some(kept));
    assert(more.drop_last() =~= verdicts);
    assert(list_hits(list) =~= all_hits(verdicts) + tagged(idx, kept)) by {
        assert forall|k: int| 0 <= k < list.len() implies list_hits(list)[k] == (all_hits(verdicts)
            + tagged(idx, kept))[k] by {
            if k < had.len() {
                assert(list[k] == had[k]);
                assert(list_hits(had)[k] == list_hits(list)[k]);
            } else {
                assert(list[k].rule == idx);
            }
        }
    }
    assert forall|k: int| #![trigger list[k]] 0 <= k < list.len() implies was_kept(
        more,
        list[k].rule as int,
        (list[k].id, list[k].subst@),
    ) by {
        if k < had.len() {
            assert(list[k] == had[k]);
            assert(was_kept(verdicts, had[k].rule as int, (had[k].id, had[k].subst@)));
            assert(more[had[k].rule as int] == verdicts[had[k].rule as int]);
        } else {
            assert(kept[k - had.len()] == (list[k].id, list[k].subst@));
        }
    }
    assert forall|i: int, hit: Hit| #[trigger] was_kept(more, i, hit) implies holds_match(
        list,
        i,
        hit.0,
        hit.1,
    ) by {
        if i < verdicts.len() {
            assert(more[i] == verdicts[i]);
            assert(was_kept(verdicts, i, hit));
            lemma_still_held(had, list, i, hit.0, hit.1);
        } else {
            let j = choose|j: int| 0 <= j < kept.len() && kept[j] == hit;
            let k = had.len() + j;
            assert(list[k].rule == idx && (list[k].id, list[k].subst@) == hit);
        }
    }
}

/// A disabled rule files nothing.
proof fn lemma_filed_none<L: Language>(list: Seq<Match<L>>, verdicts: Seq<Verdict>)
    requires
        filed(list, verdicts),
    ensures
        filed(list, verdicts.push(None)),
{
    let more = verdicts.push(None);
    assert(more.drop_last() =~= verdicts);
    assert forall|k: int| #![trigger list[k]] 0 <= k < list.len() implies was_kept(
        more,
        list[k].rule as int,
        (list[k].id, list[k].subst@),
    ) by {
        assert(was_kept(verdicts, list[k].rule as int, (list[k].id, list[k].subst@)));
        assert(more[list[k].rule as int] == verdicts[list[k].rule as int]);
    }
    assert forall|i: int, hit: Hit| #[trigger] was_kept(more, i, hit) implies holds_match(
        list,
        i,
        hit.0,
        hit.1,
    ) by {
        assert(more[i] == verdicts[i]);
        assert(was_kept(verdicts, i, hit));
    }
}

/// The rules in `list` are among `on`.
spec fn all_on<L: Language>(list: Seq<Match<L>>, on: Set<int>) -> bool {
    forall|k: int| #![trigger list[k]] 0 <= k < list.len() ==> on.contains(list[k].rule as int)
}

impl<L: Language, N: Analysis<L>> EGraph<L, N> {
    /// Match phase (read-only): collect every applicable rewrite, but only for
    /// rules that the scheduler currently enables. Returns whether a rule is
    /// banned.
    fn collect_matches<S: RewriteScheduler<L, N>>(
        &self,
        rules: &[Rewrite<L, N>],
        iter: usize,
        scheduler: &mut S,
        list: &mut Vec<Match<L>>,
    ) -> (result: (bool, Ghost<Seq<Verdict>>))
        requires
            self.wf(),
            all_usable(rules@, self.model().len()),
            old(list)@.len() == 0,
        ensures
            consulted(self, rules@, iter, old(scheduler), final(scheduler), result.1@),
            result.1@.len() == rules@.len(),
            filed(final(list)@, result.1@),
            result.0 <==> exists|i: int|
                #![trigger result.1@[i]]
                0 <= i < rules@.len() && result.1@[i] is None,
            all_fired(self.model(), rules@, final(list)@),
            all_allowed(self, rules@, final(list)@),
            !result.0 ==> complete(self, rules@, rules@.len() as int, final(list)@),
            all_sure::<L, N, S>(old(scheduler), iter, rules@.len()) ==> !result.0,
    {
        let ghost m = self.model();
        let ghost mut verdicts: Seq<Verdict> = Seq::empty();
        assert(list_hits(list@) =~= all_hits(verdicts));
        let ghost sure = all_sure::<L, N, S>(scheduler, iter, rules@.len());
        let mut banned = false;
        let mut idx: usize = 0;
        while idx < rules.len()
            invariant
                self.wf(),
                m == self.model(),
                idx <= rules@.len(),
                all_usable(rules@, m.len()),
                all_fired(m, rules@, list@),
                all_allowed(self, rules@, list@),
                !banned ==> complete(self, rules@, idx as int, list@),
                consulted(self, rules@, iter, old(scheduler), scheduler, verdicts),
                verdicts.len() == idx,
                filed(list@, verdicts),
                banned <==> exists|i: int|
                    #![trigger verdicts[i]]
                    0 <= i < idx && verdicts[i] is None,
                sure ==> !banned && forall|i: usize|
                    idx <= i < rules@.len() ==> #[trigger] scheduler.sure(iter, i),
            decreases rules@.len() - idx,
        {
            let rule = &rules[idx];
            let ghost asking = *scheduler;
            let ghost was = verdicts;
            if scheduler.is_enabled(iter, idx, rule.name) {
                let ghost asked = *scheduler;
                let ghost had = list@;
                assert(rules@[idx as int].usable(m.len()));
                let count = self.matches_of_rule(rules, idx, list);
                // Report the match count so that the scheduler can throttle
                // explosive rules (possibly banning them next iteration).
                scheduler.on_matches(iter, idx, rule.name, count);
                proof {
                    let kept = hits_from(list@, had.len());
                    verdicts = was.push(Some(kept));
                    assert(handled(
                        self,
                        *rule,
                        iter,
                        idx,
                        &asking,
                        scheduler,
                        Some(kept),
                    )) by {
                        assert(asking.answers(iter, idx, rule.name@, true, &asked));
                    }
                    lemma_consulted_push(
                        self,
                        rules@,
                        iter,
                        old(scheduler),
                        &asking,
                        scheduler,
                        was,
                        Some(kept),
                    );
                    lemma_filed_push(had, list@, was, idx as int);
                    assert(banned ==> exists|i: int|
                        #![trigger verdicts[i]]
                        0 <= i < idx + 1 && verdicts[i] is None) by {
                        if banned {
                            let i = choose|i: int|
                                #![trigger was[i]]
                                0 <= i < idx && was[i] is None;
                            assert(verdicts[i] == was[i]);
                        }
                    }
                    assert forall|i: int|
                        #![trigger verdicts[i]]
                        0 <= i < idx + 1 && verdicts[i] is None implies banned by {
                        assert(i < idx);
                        assert(verdicts[i] == was[i]);
                    }
                    assert forall|i: int, id: Id|
                        #![trigger all_matches_in(self, rules@[i], i, id, list@)]
                        !banned && 0 <= i < idx + 1 && m.has(id) && m.root(id)
                            == id implies all_matches_in(self, rules@[i], i, id, list@) by {
                        if i < idx {
                            assert(all_matches_in(self, rules@[i], i, id, had));
                            lemma_more_matches(self, rules@[i], i, id, had, list@);
                        }
                    }
                }
            } else {
                banned = true;
                proof {
                    verdicts = was.push(None);
                    lemma_consulted_push(
                        self,
                        rules@,
                        iter,
                        old(scheduler),
                        &asking,
                        scheduler,
                        was,
                        None,
                    );
                    assert(verdicts[idx as int] is None && 0 <= idx < idx + 1);
                    lemma_filed_none(list@, was);
                }
            }
            idx = idx + 1;
        }
        (banned, Ghost(verdicts))
    }

    /// Apply phase (write): produce the right-hand sides of all matches and
    /// merge them with the left-hand sides.
    #[verifier::spinoff_prover]
    #[verifier::rlimit(60)]
    fn apply_matches(
        &mut self,
        rules: &[Rewrite<L, N>],
        list: &Vec<Match<L>>,
        Ghost(on): Ghost<Set<int>>,
    ) -> (done: (bool, bool))
        requires
            old(self).wf(),
            all_usable(rules@, old(self).model().len()),
            all_fired(old(self).model(), rules@, list@),
            all_allowed(old(self), rules@, list@),
            all_on(list@, on),
        ensures
            all_templates(rules@) ==> {
                &&& edges_by_rules(old(self), final(self), rules@, on)
                &&& sprung(old(self).model(), final(self).model(), rules@)
                &&& !done.0 ==> no_new_edges(old(self).edges(), final(self).edges())
            },
            done.0 ==> rule_edge_added(old(self).edges(), final(self).edges(), rules@),
            !done.1 ==> exists|n: nat| #[trigger]
                only_applied(old(self), final(self), rules@, list_hits(list@), n) && done.0 == (n
                    > 0),
            done.1 ==> exists|cut: &EGraph<L, N>, k: int, n: nat|
                {
                    &&& #[trigger] only_applied(old(self), cut, rules@, list_hits(list@).take(k), n)
                    &&& 0 <= k < list@.len()
                    &&& leads(old(self), cut, final(self))
                    &&& given_up(cut, final(self), rules@[list_hits(list@)[k].0])
                },
            all_templates(rules@) ==> final(self).model().len() <= old(self).model().len()
                + hit_ops(rules@, list_hits(list@)),
            final(self).wf(),
            old(self).grows_into(final(self)),
            done.1 ==> !final(self).room(),
            fixed_arity::<L>() ==> forall|eval: Reading<L>, vals: Seq<int>| #[trigger]
                models(old(self).model(), eval, vals) && by_operator(eval) && all_agree(
                    eval,
                    rules@,
                    vals,
                    list@,
                ) ==> carries(final(self).model(), eval, vals),
            !done.1 ==> all_acted(old(self), final(self), rules@, list@, list@.len() as int),
            all_quiet(rules@) && fixed_arity::<L>() && tidy(old(self).model()) && (forall|k: int|
                #![trigger list@[k]]
                0 <= k < list@.len() ==> settled_match(old(self).model(), rules@, list@[k]))
                ==> !done.0 && !done.1,
            !done.0 && !done.1 && all_quiet(rules@) && fixed_arity::<L>() && tidy(
                old(self).model(),
            ) ==> {
                &&& old(self).same(final(self))
                &&& forall|k: int|
                    #![trigger list@[k]]
                    0 <= k < list@.len() ==> settled_match(old(self).model(), rules@, list@[k])
            },
    {
        let ghost m = self.model();
        proof {
            self.lemma_grows_refl();
            self.lemma_safe();
            lemma_readable_refl(m);
            lemma_sprung_refl(m, rules@);
        }
        let mut merged = false;
        let ghost mut count: nat = 0;
        let mut k: usize = 0;
        let ghost hits = list_hits(list@);
        proof {
            lemma_applied_start(&*self, rules@, hits.take(0));
        }
        while k < list.len()
            invariant
                k <= list@.len(),
                hits == list_hits(list@),
                only_applied(old(self), self, rules@, hits.take(k as int), count),
                merged == (count > 0),
                all_templates(rules@) ==> self.model().len() <= m.len() + hit_ops(
                    rules@,
                    hits.take(k as int),
                ),
                m == old(self).model(),
                old(self).wf(),
                self.wf(),
                old(self).grows_into(self),
                all_usable(rules@, m.len()),
                all_fired(m, rules@, list@),
                all_allowed(old(self), rules@, list@),
                all_on(list@, on),
                m.shape(),
                lawful::<L>(),
                all_templates(rules@) ==> {
                    &&& edges_by_rules(old(self), self, rules@, on)
                    &&& sprung(m, self.model(), rules@)
                    &&& !merged ==> no_new_edges(old(self).edges(), self.edges())
                },
                merged ==> rule_edge_added(old(self).edges(), self.edges(), rules@),
                fixed_arity::<L>() ==> forall|eval: Reading<L>, vals: Seq<int>| #[trigger]
                    models(m, eval, vals) && by_operator(eval) && all_agree(
                        eval,
                        rules@,
                        vals,
                        list@,
                    ) ==> carries(self.model(), eval, vals),
                all_acted(old(self), self, rules@, list@, k as int),
                all_quiet(rules@) && fixed_arity::<L>() && tidy(m) && (forall|x: int|
                    #![trigger list@[x]]
                    0 <= x < list@.len() ==> settled_match(m, rules@, list@[x])) ==> !merged,
                !merged && all_quiet(rules@) && fixed_arity::<L>() && tidy(m) ==> {
                    &&& old(self).same(self)
                    &&& forall|x: int|
                        #![trigger list@[x]]
                        0 <= x < k ==> settled_match(m, rules@, list@[x])
                },
            decreases list@.len() - k,
        {
            let ghost before = *self;
            let it = &list[k];
            let rule = &rules[it.rule];
            proof {
                assert(fired(m, rules@[list@[k as int].rule as int], list@[k as int].id, list@[k as int].subst@));
                lemma_grows_models(old(self), self);
                lemma_fired_grows(old(self), self, *rule, it.id, it.subst@);
                lemma_carried_grows(old(self), self, *rule, it.id, it.subst@, it.node);
                assert(rules@[it.rule as int].usable(m.len()));
                lemma_usable_grows(*rule, m.len(), self.model().len());
            }
            let outcome = self.apply_match(rule, it.id, &it.subst, &it.node);
            proof {
                assert(leads(old(self), &before, &*self)) by {
                    assert(before.grows_into(self));
                }
                assert(hits[k as int] == (it.rule as int, (it.id, it.subst@)));
                if outcome !is OutOfIds {
                    lemma_applied_next(
                        old(self),
                        &before,
                        self,
                        rules@,
                        hits,
                        k as int,
                        count,
                        outcome is Merged,
                    );
                    if outcome is Merged {
                        count = count + 1;
                    }
                } else {
                    assert(only_applied(old(self), &before, rules@, hits.take(k as int), count));
                    assert(given_up(&before, self, rules@[list_hits(list@)[k as int].0]));
                }
                if all_templates(rules@) {
                    assert(rules@[it.rule as int].rhs is Pattern);
                    lemma_hit_ops_next(rules@, hits, k as int);
                }
                before.lemma_safe();
                self.lemma_safe();
                lemma_grows_models(&before, self);
                lemma_rows_extend(&before, self);
                lemma_rows_extend(old(self), &before);
                assert(allowed(rules@[list@[k as int].rule as int], old(self), &list@[k as int].subst));
                assert(on.contains(list@[k as int].rule as int));
                if all_templates(rules@) {
                    assert(rules@[it.rule as int].rhs is Pattern);
                    lemma_match_accounted(
                        old(self),
                        &before,
                        self,
                        rules@,
                        on,
                        it.rule as int,
                        &it.subst,
                    );
                    lemma_sprung_one(before.model(), self.model(), rules@, it.rule as int);
                    lemma_sprung_trans(m, before.model(), self.model(), rules@);
                }
                if merged {
                    lemma_rule_edge_stays(old(self), &before, self, rules@);
                }
                if outcome is Merged {
                    lemma_rule_edge_one(old(self), &before, self, rules@, it.rule as int);
                }
                EGraph::lemma_grows_trans(old(self), &before, self);
                if !merged && all_quiet(rules@) && fixed_arity::<L>() && tidy(m) && settled_match(
                    m,
                    rules@,
                    list@[k as int],
                ) {
                    assert(before.model() == m);
                    assert(rules@[it.rule as int].quiet());
                    assert(outcome is Unchanged);
                }
                assert forall|eval: Reading<L>, vals: Seq<int>|
                    fixed_arity::<L>() && #[trigger] models(m, eval, vals) && by_operator(eval)
                        && all_agree(eval, rules@, vals, list@) implies carries(
                    self.model(),
                    eval,
                    vals,
                ) by {
                    assert(carries(before.model(), eval, vals));
                    let more = choose|more: Seq<int>| #[trigger]
                        models(before.model(), eval, more) && extends(vals, more);
                    lemma_models_len(m, eval, vals);
                    assert(agrees(eval, rules@[list@[k as int].rule as int], vals, list@[k as int].subst@));
                    lemma_agrees_extends(m, eval, *rule, vals, more, it.subst@);
                    assert(agrees(eval, *rule, more, it.subst@));
                    assert(carries(self.model(), eval, more));
                    lemma_carries_trans(self.model(), eval, vals, more);
                }
                old(self).lemma_grows_refl();
                assert forall|x: int| #![trigger list@[x]] 0 <= x < k implies acted(
                    old(self),
                    self,
                    rules@[list@[x].rule as int],
                    list@[x].id,
                    list@[x].subst@,
                ) by {
                    assert(fired(m, rules@[list@[x].rule as int], list@[x].id, list@[x].subst@));
                    lemma_acted_grows(
                        old(self),
                        old(self),
                        &before,
                        self,
                        rules@[list@[x].rule as int],
                        list@[x].id,
                        list@[x].subst@,
                    );
                }
                if outcome !is OutOfIds {
                    self.lemma_grows_refl();
                    lemma_acted_grows(old(self), &before, self, self, *rule, it.id, it.subst@);
                }
                if outcome is Unchanged && !merged && all_quiet(rules@) && fixed_arity::<L>()
                    && tidy(m) {
                    assert(rules@[it.rule as int].quiet());
                    lemma_same_chain(old(self), &before, self);
                    assert(settled_match(m, rules@, list@[k as int]));
                }
            }
            match outcome {
                Outcome::Merged => {
                    merged = true;
                },
                Outcome::Unchanged => {},
                Outcome::OutOfIds => {
                    return (merged, true);
                },
            }
            k = k + 1;
        }
        assert(hits.take(k as int) =~= hits);
        (merged, false)
    }

    /// One iteration of equality saturation.
    fn run_once<S: RewriteScheduler<L, N>>(
        &mut self,
        rules: &[Rewrite<L, N>],
        iter: usize,
        scheduler: &mut S,
    ) -> (progress: Progress)
        requires
            old(self).wf(),
            all_usable(rules@, old(self).model().len()),
        ensures
            !progress.out_of_ids ==> round(
                old(self),
                final(self),
                old(scheduler),
                final(scheduler),
                rules@,
                iter,
                !progress.merged && !progress.banned,
            ),
            N::inert() && all_templates(rules@) ==> {
                &&& edges_by_rules(old(self), final(self), rules@, Set::full())
                &&& sprung(old(self).model(), final(self).model(), rules@)
            },
            final(self).wf(),
            final(self).settled(),
            tidy(final(self).model()),
            old(self).grows_into(final(self)),
            progress.out_of_ids ==> !final(self).room(),
            progress.out_of_ids ==> cut_short(
                old(self),
                final(self),
                old(scheduler),
                final(scheduler),
                rules@,
                iter,
            ),
            !progress.banned && !progress.out_of_ids ==> realized(
                old(self),
                final(self),
                rules@,
            ),
            all_sure::<L, N, S>(old(scheduler), iter, rules@.len()) ==> !progress.banned,
            fixed_arity::<L>() ==> respected(
                old(self).model(),
                final(self).model(),
                rules@,
            ),
            !progress.merged && !progress.banned && !progress.out_of_ids && all_quiet(rules@)
                && fixed_arity::<L>() && tidy(old(self).model()) && old(self).settled()
                ==> saturated(old(self), rules@) && old(self).alike(final(self)),
            at_rest(old(self), rules@) ==> {
                &&& !progress.merged && !progress.out_of_ids
                &&& old(self).alike(final(self))
            },
    {
        let mut list: Vec<Match<L>> = Vec::new();
        let (banned, Ghost(verdicts)) = self.collect_matches(rules, iter, scheduler, &mut list);
        let ghost on = enabled(verdicts);
        assert(all_on(list@, on)) by {
            assert forall|k: int| #![trigger list@[k]] 0 <= k < list@.len() implies on.contains(
                list@[k].rule as int,
            ) by {
                assert(was_kept(
                    verdicts,
                    list@[k].rule as int,
                    (list@[k].id, list@[k].subst@),
                ));
            }
        }
        proof {
            if at_rest(old(self), rules@) {
                assert forall|k: int|
                    #![trigger list@[k]]
                    0 <= k < list@.len() implies settled_match(
                    old(self).model(),
                    rules@,
                    list@[k],
                ) by {
                    let i = list@[k].rule as int;
                    assert(fired(old(self).model(), rules@[i], list@[k].id, list@[k].subst@));
                    assert(allowed(rules@[i], old(self), &list@[k].subst));
                    lemma_rest_match(old(self), rules@, i, list@[k].id, &list@[k].subst);
                }
            }
        }
        let (merged, out_of_ids) = self.apply_matches(rules, &list, Ghost(on));
        let ghost applied = *self;
        // Rebuild phase: restore congruence in one batch.
        self.rebuild();
        proof {
            EGraph::lemma_grows_trans(old(self), &applied, self);
            lemma_grows_models(&applied, self);
            if fixed_arity::<L>() {
                lemma_round_respected(old(self), &applied, self, rules@, list@);
            }
            if !banned && !out_of_ids {
                lemma_realized(old(self), &applied, self, rules@, list@);
            }
            if N::inert() && all_templates(rules@) {
                lemma_round_labels(old(self), &applied, self, rules@, on, merged);
            }
            if merged {
                lemma_rule_edge_stays(old(self), &applied, self, rules@);
            }
            if out_of_ids {
                let hits = all_hits(verdicts);
                let (cut, k, n) = choose|cut: &EGraph<L, N>, k: int, n: nat|
                    {
                        &&& #[trigger] only_applied(
                            old(self),
                            cut,
                            rules@,
                            list_hits(list@).take(k),
                            n,
                        )
                        &&& 0 <= k < list@.len()
                        &&& leads(old(self), cut, &applied)
                        &&& given_up(cut, &applied, rules@[list_hits(list@)[k].0])
                    };
                assert(list_hits(list@) == hits);
                assert(only_applied(old(self), cut, rules@, hits.take(k), n));
                assert(given_up(cut, &applied, rules@[hits[k].0]));
                assert(stopped_in(old(self), self, rules@, hits));
                assert(cut_short(old(self), self, old(scheduler), scheduler, rules@, iter)) by {
                    reveal(cut_short);
                    assert(consulted(
                        old(self),
                        rules@,
                        iter,
                        old(scheduler),
                        scheduler,
                        verdicts,
                    ));
                }
            }
            if !out_of_ids {
                assert forall|i: int, hit: Hit| #[trigger]
                    was_kept(verdicts, i, hit) implies acted(
                    old(self),
                    self,
                    rules@[i],
                    hit.0,
                    hit.1,
                ) by {
                    assert(holds_match(list@, i, hit.0, hit.1));
                    let k = choose|k: int|
                        #![trigger list@[k]]
                        0 <= k < list@.len() && list@[k].rule == i && list@[k].id == hit.0
                            && list@[k].subst@ == hit.1;
                    assert(fired(
                        old(self).model(),
                        rules@[list@[k].rule as int],
                        list@[k].id,
                        list@[k].subst@,
                    ));
                    old(self).lemma_grows_refl();
                    lemma_acted_grows(old(self), old(self), &applied, self, rules@[i], hit.0, hit.1);
                }
                let quiet = !merged && !banned;
                if !quiet && banned {
                    let i = choose|i: int|
                        #![trigger verdicts[i]]
                        0 <= i < rules@.len() && verdicts[i] is None;
                    assert(verdicts[i] is None);
                }
                assert(consulted(old(self), rules@, iter, old(scheduler), scheduler, verdicts));
                assert(acted_upon(old(self), self, rules@, verdicts, quiet)) by {
                    let n = choose|n: nat| #[trigger]
                        only_applied(old(self), &applied, rules@, list_hits(list@), n) && merged == (
                        n > 0);
                    assert(only_applied(old(self), &applied, rules@, all_hits(verdicts), n));
                    assert(banned <==> !(forall|i: int|
                        #![trigger verdicts[i]]
                        0 <= i < verdicts.len() ==> verdicts[i] is Some)) by {
                        if banned {
                            let i = choose|i: int|
                                #![trigger verdicts[i]]
                                0 <= i < rules@.len() && verdicts[i] is None;
                            assert(verdicts[i] is None);
                        } else {
                            assert forall|i: int|
                                #![trigger verdicts[i]]
                                0 <= i < verdicts.len() implies verdicts[i] is Some by {
                                if verdicts[i] is None {
                                    assert(banned);
                                }
                            }
                        }
                    }
                }
                assert(round(
                    old(self),
                    self,
                    old(scheduler),
                    scheduler,
                    rules@,
                    iter,
                    quiet,
                )) by {
                    reveal(round);
                }
            }
            if !merged && !banned && !out_of_ids && all_quiet(rules@) && fixed_arity::<L>() && tidy(
                old(self).model(),
            ) && old(self).settled() {
                lemma_alike_trans(old(self), &applied, self);
                lemma_saturated(old(self), rules@, list@);
            }
            if at_rest(old(self), rules@) {
                lemma_alike_trans(old(self), &applied, self);
            }
        }
        Progress { merged, banned, out_of_ids }
    }

    /// Run equality saturation until a stop condition in `config` is hit:
    /// saturation (no enabled rule produced a merge), the iteration limit, or
    /// the node-count cap. The `scheduler` decides, each iteration, which rules
    /// are allowed to fire and observes how many matches each produced.
    ///
    /// Saturation is only declared when the last iteration made no progress and
    /// no rule is currently banned: a banned rule may still have work to do
    /// once it is un-banned.
    #[verifier::spinoff_prover]
    #[verifier::rlimit(60)]
    pub fn run_with_scheduler<S: RewriteScheduler<L, N>>(
        &mut self,
        rules: &[Rewrite<L, N>],
        config: RunConfig,
        scheduler: &mut S,
    ) -> (reason: StopReason)
        requires
            old(self).wf(),
            all_usable(rules@, old(self).model().len()),
        ensures
            final(self).wf(),
            old(self).grows_into(final(self)),
            all_usable(rules@, final(self).model().len()),
            run_ended(old(self), final(self), rules@, config, reason),
            fixed_arity::<L>() ==> respected(
                old(self).model(),
                final(self).model(),
                rules@,
            ),
            all_sure::<L, N, S>(old(scheduler), 0, rules@.len()) && iterations_of(reason) > 0
                && reason !is OutOfIds ==> realized(
                old(self),
                final(self),
                rules@,
            ),
            went(old(self), final(self), old(scheduler), final(scheduler), rules@, config, reason),
            left_at_rest(old(self), final(self), rules@),
            at_rest(old(self), rules@) && config.max_iters > 0 && below_cap(
                old(self).model(),
                config.node_limit,
            ) && all_sure::<L, N, S>(old(scheduler), 0, rules@.len()) ==> reason
                == (StopReason::Saturated { iterations: 1 }),
            config.max_iters == 0 || !below_cap(old(self).model(), config.node_limit) ==> {
                &&& *final(self) == *old(self)
                &&& *final(scheduler) == *old(scheduler)
                &&& reason == if config.max_iters == 0 {
                    StopReason::IterationLimit { limit: 0 }
                } else {
                    StopReason::NodeLimit { limit: config.node_limit->0, iterations: 0 }
                }
            },
            N::inert() && all_templates(rules@) ==> {
                &&& edges_by_rules(old(self), final(self), rules@, Set::full())
                &&& sprung(old(self).model(), final(self).model(), rules@)
            },
    {
        let ghost sure = all_sure::<L, N, S>(scheduler, 0, rules@.len());
        proof {
            self.lemma_safe();
            self.lemma_grows_refl();
            lemma_sprung_refl(self.model(), rules@);
        }
        let mut iter: usize = 0;
        while iter < config.max_iters
            invariant
                iter <= config.max_iters,
                old(self).wf(),
                self.wf(),
                old(self).grows_into(self),
                all_usable(rules@, self.model().len()),
                iter == 0 ==> *self == *old(self),
                iter > 0 ==> self.settled() && tidy(self.model()),
                fixed_arity::<L>() ==> respected(
                    old(self).model(),
                    self.model(),
                    rules@,
                ),
                sure == all_sure::<L, N, S>(old(scheduler), 0, rules@.len()),
                iter == 0 && sure ==> all_sure::<L, N, S>(scheduler, 0, rules@.len()),
                iter > 0 && sure ==> realized(old(self), self, rules@),
                driven(
                    old(self),
                    self,
                    old(scheduler),
                    scheduler,
                    rules@,
                    config,
                    iter as nat,
                ),
                at_rest(old(self), rules@) ==> old(self).alike(self) && (iter > 0 ==> !sure),
                iter > 0 ==> below_cap(old(self).model(), config.node_limit),
                N::inert() && all_templates(rules@) ==> {
                    &&& edges_by_rules(old(self), self, rules@, Set::full())
                    &&& sprung(old(self).model(), self.model(), rules@)
                },
            decreases config.max_iters - iter,
        {
            // Node-count cap: stop before doing more work if too large.
            if let Some(limit) = config.node_limit {
                if self.total_nodes() >= limit {
                    return StopReason::NodeLimit { limit, iterations: iter };
                }
            }
            let ghost before = *self;
            let ghost asked = *scheduler;
            assert(below_cap(before.model(), config.node_limit));
            let progress = self.run_once(rules, iter, scheduler);
            proof {
                lemma_grows_models(&before, self);
                assert forall|i: int| #![trigger rules@[i]] 0 <= i < rules@.len() implies rules@[i].usable(
                    self.model().len(),
                ) by {
                    assert(rules@[i].usable(before.model().len()));
                    lemma_usable_grows(rules@[i], before.model().len(), self.model().len());
                }
                if at_rest(old(self), rules@) {
                    lemma_rest_alike(old(self), &before, rules@);
                    lemma_alike_trans(old(self), &before, self);
                }
                EGraph::lemma_grows_trans(old(self), &before, self);
                if fixed_arity::<L>() {
                    lemma_respected_trans(
                        old(self).model(),
                        before.model(),
                        self.model(),
                        rules@,
                    );
                }
                if iter > 0 && sure {
                    lemma_realized_grows(old(self), &before, self, rules@);
                }
                if N::inert() && all_templates(rules@) {
                    old(self).lemma_safe();
                    before.lemma_safe();
                    self.lemma_safe();
                    lemma_grows_models(&before, self);
                    lemma_rule_edges_trans(
                        old(self),
                        &before,
                        self,
                        rules@,
                        Set::full(),
                        Set::full(),
                        Set::full(),
                    );
                    lemma_sprung_trans(
                        old(self).model(),
                        before.model(),
                        self.model(),
                        rules@,
                    );
                }
                if !progress.out_of_ids && (progress.merged || progress.banned) {
                    let n = (iter + 1) as nat;
                    assert((n - 1) as usize == iter && (n - 1) as nat == iter as nat);
                    assert(round(&before, self, &asked, scheduler, rules@, iter, false));
                    assert(driven(
                        old(self),
                        self,
                        old(scheduler),
                        scheduler,
                        rules@,
                        config,
                        n,
                    ));
                }
                if !progress.out_of_ids && !progress.merged && !progress.banned {
                    assert((iter as nat) as usize == iter);
                    assert(round(&before, self, &asked, scheduler, rules@, iter, true));
                    assert(calmed(
                        old(self),
                        self,
                        old(scheduler),
                        scheduler,
                        rules@,
                        config,
                        iter as nat,
                    ));
                }
            }
            iter = iter + 1;
            if progress.out_of_ids {
                proof {
                    lemma_ran_out(
                        old(self),
                        &before,
                        self,
                        old(scheduler),
                        &asked,
                        scheduler,
                        rules@,
                        config,
                        iter,
                    );
                }
                return StopReason::OutOfIds { iterations: iter };
            }
            // Only saturate when nothing merged and no rule is sitting banned.
            if !progress.merged && !progress.banned {
                proof {
                    if all_quiet(rules@) && fixed_arity::<L>() && tidy(before.model())
                        && before.settled() {
                        assert(saturated(&before, rules@) && before.alike(self));
                    }
                }
                return StopReason::Saturated { iterations: iter };
            }
        }
        StopReason::IterationLimit { limit: config.max_iters }
    }

    /// Run equality saturation with the default [`BackoffScheduler`], which
    /// temporarily bans rules that match explosively so that no single rule can
    /// dominate the search.
    pub fn run(&mut self, rules: &[Rewrite<L, N>], config: RunConfig) -> (reason: StopReason)
        requires
            old(self).wf(),
            all_usable(rules@, old(self).model().len()),
        ensures
            final(self).wf(),
            old(self).grows_into(final(self)),
            all_usable(rules@, final(self).model().len()),
            run_ended(old(self), final(self), rules@, config, reason),
            fixed_arity::<L>() ==> respected(
                old(self).model(),
                final(self).model(),
                rules@,
            ),
            iterations_of(reason) > 0 && reason !is OutOfIds ==> realized(
                old(self),
                final(self),
                rules@,
            ),
            exists|before: &BackoffScheduler, after: &BackoffScheduler| #[trigger]
                went(old(self), final(self), before, after, rules@, config, reason)
                    && before.book() == Map::<usize, RuleStats>::empty() && before.limits() == (
                    1000usize,
                    2usize,
                ),
            left_at_rest(old(self), final(self), rules@),
            at_rest(old(self), rules@) && config.max_iters > 0 && below_cap(
                old(self).model(),
                config.node_limit,
            ) ==> reason == (StopReason::Saturated { iterations: 1 }),
            config.max_iters == 0 || !below_cap(old(self).model(), config.node_limit) ==> {
                &&& *final(self) == *old(self)
                &&& reason == if config.max_iters == 0 {
                    StopReason::IterationLimit { limit: 0 }
                } else {
                    StopReason::NodeLimit { limit: config.node_limit->0, iterations: 0 }
                }
            },
            N::inert() && all_templates(rules@) ==> {
                &&& edges_by_rules(old(self), final(self), rules@, Set::full())
                &&& sprung(old(self).model(), final(self).model(), rules@)
            },
    {
        let mut scheduler = BackoffScheduler::default();
        let ghost first = scheduler;
        let reason = self.run_with_scheduler(rules, config, &mut scheduler);
        assert(went(old(self), self, &first, &scheduler, rules@, config, reason));
        reason
    }
}

/// What a run that ended for `reason` did, iteration by iteration.
pub open spec fn went<L: Language, N: Analysis<L>, S: RewriteScheduler<L, N>>(
    old: &EGraph<L, N>,
    new: &EGraph<L, N>,
    before: &S,
    after: &S,
    rules: Seq<Rewrite<L, N>>,
    config: RunConfig,
    reason: StopReason,
) -> bool {
    match reason {
        StopReason::Saturated { iterations } => 0 < iterations <= config.max_iters && calmed(
            old,
            new,
            before,
            after,
            rules,
            config,
            (iterations - 1) as nat,
        ),
        StopReason::NodeLimit { limit, iterations } => {
            &&& iterations < config.max_iters
            &&& config.node_limit == Some(limit)
            &&& !below_cap(new.model(), config.node_limit)
            &&& driven(old, new, before, after, rules, config, iterations as nat)
        },
        StopReason::IterationLimit { limit } => {
            &&& limit == config.max_iters
            &&& driven(old, new, before, after, rules, config, limit as nat)
        },
        StopReason::OutOfIds { iterations } => {
            &&& 0 < iterations <= config.max_iters
            &&& exists|last: &EGraph<L, N>, between: &S| #[trigger]
                under_way(
                    old,
                    last,
                    before,
                    between,
                    rules,
                    config,
                    (iterations - 1) as nat,
                ) && cut_short(last, new, between, after, rules, (iterations - 1) as usize)
        },
    }
}

/// How many iterations a run made.
pub open spec fn iterations_of(reason: StopReason) -> usize {
    match reason {
        StopReason::Saturated { iterations } => iterations,
        StopReason::NodeLimit { limit, iterations } => iterations,
        StopReason::IterationLimit { limit } => limit,
        StopReason::OutOfIds { iterations } => iterations,
    }
}

/// How a run that ended for `reason` left the graph.
pub open spec fn run_ended<L: Language, N: ClassData>(
    old: &EGraph<L, N>,
    new: &EGraph<L, N>,
    rules: Seq<Rewrite<L, N>>,
    config: RunConfig,
    reason: StopReason,
) -> bool {
    match reason {
        StopReason::Saturated { iterations } => {
            &&& 0 < iterations <= config.max_iters
            &&& new.settled()
            &&& tidy(new.model())
            &&& all_quiet(rules) && fixed_arity::<L>() && (iterations > 1 || (tidy(old.model())
                && old.settled())) ==> exists|last: &EGraph<L, N>| #[trigger]
                saturated(last, rules) && last.wf() && last.alike(new)
        },
        StopReason::NodeLimit { limit, iterations } => {
            &&& iterations < config.max_iters
            &&& config.node_limit == Some(limit)
            &&& node_count(new.model(), new.model().len()) >= limit
            &&& if iterations == 0 {
                *new == *old
            } else {
                new.settled() && tidy(new.model())
            }
        },
        StopReason::IterationLimit { limit } => {
            &&& limit == config.max_iters
            &&& if limit == 0 {
                *new == *old
            } else {
                new.settled() && tidy(new.model())
            }
        },
        StopReason::OutOfIds { iterations } => {
            &&& 0 < iterations <= config.max_iters
            &&& new.settled()
            &&& tidy(new.model())
            &&& !new.room()
        },
    }
}

/// What was done stays so.
proof fn lemma_done_grows<L: Language, N: ClassData>(
    old: &EGraph<L, N>,
    a: &EGraph<L, N>,
    b: &EGraph<L, N>,
    rule: Rewrite<L, N>,
    id: Id,
    s: Bound,
)
    requires
        old.wf(),
        a.wf(),
        b.wf(),
        old.grows_into(a),
        a.grows_into(b),
        old.model().has(id),
        bound_in(old.model(), s),
        match_done(old, a, rule, id, s),
    ensures
        match_done(old, b, rule, id, s),
{
    old.lemma_grows_refl();
    if must_pass(rule, old, s.insert(MATCHED_LHS@, id)) {
        lemma_acted_grows(old, old, a, b, rule, id, s.insert(MATCHED_LHS@, id));
    }
}

/// What a template brings in comes from a side of the rule.
proof fn lemma_sprung_fresh<L: Language, N: ClassData>(
    m: Model<L>,
    n: Model<L>,
    rule: Rewrite<L, N>,
    p: Pattern<L>,
    s: Bound,
)
    requires
        m.shape(),
        n.shape(),
        only_added(m, n),
        fresh_from(m, n, p, s),
        rule.lhs == Lhs::<L, N>::Pattern(p) || rule.rhs == Rhs::<L, N>::Pattern(p),
    ensures
        sprung(m, n, seq![rule]),
{
    let rules = seq![rule];
    assert forall|k: int, b: int|
        #![trigger n.nodes[k][b]]
        0 <= k < n.len() && 0 <= b < n.nodes[k].len() implies stems(
        m,
        n.roots,
        n.nodes[k][b],
    ) || instanced(n, n.nodes[k][b], rules) by {
        if k < m.len() {
            assert(n.nodes[k] == m.nodes[k]);
            assert(canon(n.roots, m.nodes[k][b]) == canon(n.roots, n.nodes[k][b]));
        } else {
            assert(fresh_at(n, k, p, s));
            let q = choose|q: Pattern<L>| #[trigger]
                instance(n, n.nodes[k][0], q, s) && within(p, q);
            assert(b == 0);
            assert(rules[0] == rule);
            assert(side_within(rules[0], q));
            assert(instance(n, n.nodes[k][b], q, s));
        }
    }
}

/// A merge brings in no e-node.
proof fn lemma_sprung_merged<L: Language, N: ClassData>(m: Model<L>, a: Id, b: Id)
    requires
        m.shape(),
        m.has(a),
        m.has(b),
        a != b,
    ensures
        sprung(m, m.merged(a, b), Seq::<Rewrite<L, N>>::empty()),
{
    let n = m.merged(a, b);
    assert forall|k: int, x: int|
        #![trigger n.nodes[k][x]]
        0 <= k < n.len() && 0 <= x < n.nodes[k].len() implies stems(
        m,
        n.roots,
        n.nodes[k][x],
    ) by {
        if k == a.at() {
            if x < m.nodes[a.at()].len() {
                assert(n.nodes[k][x] == m.nodes[a.at()][x]);
            } else {
                assert(n.nodes[k][x] == m.nodes[b.at()][x - m.nodes[a.at()].len()]);
            }
        } else {
            assert(n.nodes[k][x] == m.nodes[k][x]);
        }
    }
}

/// More rules account for what fewer account for.
proof fn lemma_sprung_more<L: Language, N: ClassData>(
    m: Model<L>,
    n: Model<L>,
    few: Seq<Rewrite<L, N>>,
    rules: Seq<Rewrite<L, N>>,
)
    requires
        few.len() == 0,
        sprung(m, n, few),
    ensures
        sprung(m, n, rules),
{
    assert forall|k: int, b: int|
        #![trigger n.nodes[k][b]]
        0 <= k < n.len() && 0 <= b < n.nodes[k].len() implies stems(
        m,
        n.roots,
        n.nodes[k][b],
    ) by {
        assert(!instanced(n, n.nodes[k][b], few));
    }
}

/// What one rule accounts for, the rules do.
proof fn lemma_sprung_one<L: Language, N: ClassData>(
    m: Model<L>,
    n: Model<L>,
    rules: Seq<Rewrite<L, N>>,
    i: int,
)
    requires
        0 <= i < rules.len(),
        sprung(m, n, seq![rules[i]]),
    ensures
        sprung(m, n, rules),
{
    let one = seq![rules[i]];
    assert forall|k: int, b: int|
        #![trigger n.nodes[k][b]]
        0 <= k < n.len() && 0 <= b < n.nodes[k].len() implies stems(
        m,
        n.roots,
        n.nodes[k][b],
    ) || instanced(n, n.nodes[k][b], rules) by {
        if instanced(n, n.nodes[k][b], one) {
            let (q, s, j) = choose|q: Pattern<L>, s: Bound, j: int|
                #![trigger instance(n, n.nodes[k][b], q, s), one[j]]
                0 <= j < one.len() && instance(n, n.nodes[k][b], q, s) && side_within(one[j], q);
            assert(one[j] == rules[i]);
            assert(instance(n, n.nodes[k][b], q, s) && side_within(rules[i], q));
        }
    }
}

/// Where there are no new edges, all come from the match.
proof fn lemma_no_edges_by_match<L: Language, N: ClassData>(
    old: &EGraph<L, N>,
    new: &EGraph<L, N>,
    rule: Rewrite<L, N>,
    s: Bound,
)
    requires
        no_new_edges(old.edges(), new.edges()),
    ensures
        edges_by_match(old, new, rule, s),
{
    assert forall|i: int, e: int|
        #![trigger new.edges()[i][e]]
        0 <= i < new.edges().len() && 0 <= e < new.edges()[i].len() implies is_old_edge(
        old.edges(),
        i,
        e,
    ) by {
        assert(i < old.edges().len());
        assert(new.edges()[i] == old.edges()[i]);
    }
}

/// The edge of a merge by a rule is new.
proof fn lemma_added_edge<L: Language, N: ClassData>(
    old: &EGraph<L, N>,
    found: &EGraph<L, N>,
    new: &EGraph<L, N>,
    rule: Rewrite<L, N>,
    a: Id,
    b: Id,
)
    requires
        old.grows_into(found),
        a.at() < found.edges().len(),
        b.at() < found.edges().len(),
        a != b,
        new.edges() == with_edge(found.edges(), a, b, Reason::Rule(rule.name@)),
    ensures
        rule_edge_added(old.edges(), new.edges(), seq![rule]),
{
    lemma_rows_extend(old, found);
    let e = found.edges()[a.at()].len() as int;
    let now = new.edges();
    assert(now[a.at()] =~= found.edges()[a.at()].push((b, Reason::Rule(rule.name@))));
    assert(now[a.at()][e] == (b, Reason::Rule(rule.name@)));
    assert(!is_old_edge(old.edges(), a.at(), e)) by {
        if a.at() < old.edges().len() {
            assert(old.edges()[a.at()].len() <= found.edges()[a.at()].len());
        }
    }
    assert(seq![rule][0] == rule);
}

/// An edge that was added stays.
proof fn lemma_rule_edge_stays<L: Language, N: ClassData>(
    old: &EGraph<L, N>,
    mid: &EGraph<L, N>,
    new: &EGraph<L, N>,
    rules: Seq<Rewrite<L, N>>,
)
    requires
        mid.grows_into(new),
        rule_edge_added(old.edges(), mid.edges(), rules),
    ensures
        rule_edge_added(old.edges(), new.edges(), rules),
{
    lemma_rows_extend(mid, new);
    let (was, now) = (mid.edges(), new.edges());
    let (i, e, k) = choose|i: int, e: int, k: int|
        #![trigger was[i][e], rules[k]]
        0 <= i < was.len() && 0 <= e < was[i].len() && !is_old_edge(old.edges(), i, e) && 0 <= k
            < rules.len() && was[i][e].1 == Reason::Rule(rules[k].name@);
    assert(now[i][e] == was[i][e]);
    assert(new.edges()[i].len() >= mid.edges()[i].len());
    assert(now[i][e].1 == Reason::Rule(rules[k].name@));
}

/// An edge that one rule added after others is one that the rules added.
proof fn lemma_rule_edge_one<L: Language, N: ClassData>(
    old: &EGraph<L, N>,
    before: &EGraph<L, N>,
    new: &EGraph<L, N>,
    rules: Seq<Rewrite<L, N>>,
    r: int,
)
    requires
        old.grows_into(before),
        0 <= r < rules.len(),
        rule_edge_added(before.edges(), new.edges(), seq![rules[r]]),
    ensures
        rule_edge_added(old.edges(), new.edges(), rules),
{
    lemma_rows_extend(old, before);
    let one = seq![rules[r]];
    let now = new.edges();
    let (i, e, k) = choose|i: int, e: int, k: int|
        #![trigger now[i][e], one[k]]
        0 <= i < now.len() && 0 <= e < now[i].len() && !is_old_edge(before.edges(), i, e) && 0 <= k
            < one.len() && now[i][e].1 == Reason::Rule(one[k].name@);
    assert(one[k] == rules[r]);
    assert(!is_old_edge(old.edges(), i, e)) by {
        if i < old.edges().len() {
            assert(old.edges()[i].len() <= before.edges()[i].len());
        }
    }
    assert(now[i][e].1 == Reason::Rule(rules[r].name@));
}

/// The two sides of a match, right before they are merged.
proof fn lemma_sides_found<L: Language, N: ClassData>(
    mid: &EGraph<L, N>,
    made: &EGraph<L, N>,
    found: &EGraph<L, N>,
    rule: Rewrite<L, N>,
    id: Id,
    s: Bound,
    lhs_id: Id,
    rhs_id: Id,
)
    requires
        mid.safe(),
        made.safe(),
        found.safe(),
        mid.grows_into(made),
        found.model() == made.model(),
        mid.model().has(lhs_id),
        mid.model().has(id),
        bound_in(mid.model(), s),
        s.contains_key(MATCHED_LHS@) && s[MATCHED_LHS@] == id,
        made.model().has(rhs_id),
        found.model().root(lhs_id) != found.model().root(rhs_id),
        rule.lhs matches Lhs::Pattern(p) ==> stands_for(mid.model(), lhs_id, p, s),
        rule.lhs is Dynamic ==> mid.model().root(lhs_id) == mid.model().root(id),
        rule.rhs matches Rhs::Pattern(r) ==> stands_for(made.model(), rhs_id, r, s),
    ensures
        rule_sides(found.model(), rule, s, lhs_id, rhs_id),
{
    mid.lemma_safe();
    made.lemma_safe();
    lemma_grows_models(mid, made);
    match rule.lhs {
        Lhs::Pattern(p) => {
            lemma_stands_grows(mid.model(), made.model(), lhs_id, p, s);
        },
        Lhs::Dynamic(_) => {
            assert(mid.model().roots[lhs_id.at()] == mid.model().roots[id.at()]);
        },
    }
}

/// What an iteration adds, rebuild included.
proof fn lemma_round_labels<L: Language, N: Analysis<L>>(
    old: &EGraph<L, N>,
    applied: &EGraph<L, N>,
    new: &EGraph<L, N>,
    rules: Seq<Rewrite<L, N>>,
    on: Set<int>,
    merged: bool,
)
    requires
        old.wf(),
        applied.wf(),
        new.wf(),
        old.grows_into(applied),
        applied.grows_into(new),
        edges_by_rules(old, applied, rules, on),
        sprung(old.model(), applied.model(), rules),
        !merged ==> no_new_edges(old.edges(), applied.edges()),
        edges_by_congruence(applied, new),
        stems_from(applied.model(), new.model()),
        new.model().len() == applied.model().len(),
    ensures
        edges_by_rules(old, new, rules, on),
        edges_by_rules(old, new, rules, Set::full()),
        sprung(old.model(), new.model(), rules),
        !merged ==> edges_by_congruence(old, new),
{
    old.lemma_safe();
    applied.lemma_safe();
    new.lemma_safe();
    lemma_grows_models(old, applied);
    lemma_grows_models(applied, new);
    lemma_congruence_accounted(applied, new, rules, on);
    lemma_rule_edges_trans(old, applied, new, rules, on, on, on);
    lemma_rule_edges_trans(old, applied, new, rules, on, on, Set::full());
    let (m, n) = (applied.model(), new.model());
    assert(sprung(m, n, rules)) by {
        assert forall|k: int, b: int|
            #![trigger n.nodes[k][b]]
            0 <= k < n.len() && 0 <= b < n.nodes[k].len() implies stems(
            m,
            n.roots,
            n.nodes[k][b],
        ) by {
            assert(stems_at(m, n.roots, n.nodes[k][b], Id(k as u32)));
        }
    }
    lemma_sprung_trans(old.model(), m, n, rules);
    if !merged {
        assert(edges_by_congruence(old, applied)) by {
            assert forall|i: int, e: int|
                #![trigger applied.edges()[i][e]]
                0 <= i < applied.edges().len() && 0 <= e
                    < applied.edges()[i].len() implies is_old_edge(old.edges(), i, e) by {
                assert(i < old.edges().len());
                assert(applied.edges()[i] == old.edges()[i]);
            }
        }
        lemma_edges_trans(old, applied, new);
    }
}

/// A run that used up the ids in its last iteration.
proof fn lemma_ran_out<L: Language, N: Analysis<L>, S: RewriteScheduler<L, N>>(
    old: &EGraph<L, N>,
    last: &EGraph<L, N>,
    new: &EGraph<L, N>,
    before: &S,
    between: &S,
    after: &S,
    rules: Seq<Rewrite<L, N>>,
    config: RunConfig,
    iterations: usize,
)
    requires
        0 < iterations <= config.max_iters,
        under_way(old, last, before, between, rules, config, (iterations - 1) as nat),
        cut_short(last, new, between, after, rules, (iterations - 1) as usize),
    ensures
        went(old, new, before, after, rules, config, StopReason::OutOfIds { iterations }),
{
}

/// One match more was acted upon.
proof fn lemma_applied_next<L: Language, N: Analysis<L>>(
    old: &EGraph<L, N>,
    mid: &EGraph<L, N>,
    new: &EGraph<L, N>,
    rules: Seq<Rewrite<L, N>>,
    hits: Seq<(int, Hit)>,
    k: int,
    n: nat,
    merged: bool,
)
    requires
        0 <= k < hits.len(),
        only_applied(old, mid, rules, hits.take(k), n),
        leads(old, mid, new),
        apply_step(mid, new, rules[hits[k].0], hits[k].1, merged),
    ensures
        merged ==> only_applied(old, new, rules, hits.take(k + 1), n + 1),
        !merged ==> only_applied(old, new, rules, hits.take(k + 1), n),
{
    lemma_applied_more(old, mid, new, rules, hits.take(k), hits[k], n, merged);
    assert(hits.take(k + 1) =~= hits.take(k).push(hits[k]));
}

/// One match more has the operators of its rule.
proof fn lemma_hit_ops_next<L: Language, N: Analysis<L>>(
    rules: Seq<Rewrite<L, N>>,
    hits: Seq<(int, Hit)>,
    k: int,
)
    requires
        0 <= k < hits.len(),
    ensures
        hit_ops(rules, hits.take(k + 1)) == hit_ops(rules, hits.take(k)) + rule_ops(
            rules[hits[k].0],
        ),
        hit_ops(rules, hits.take(k + 1)) <= hit_ops(rules, hits),
{
    assert(hits.take(k + 1).drop_last() =~= hits.take(k));
    lemma_hit_ops(rules, hits, k + 1);
}

/// Nothing was merged.
proof fn lemma_not_joined<L: Language, N: Analysis<L>>(
    old: &EGraph<L, N>,
    new: &EGraph<L, N>,
    rule: Rewrite<L, N>,
    x: Id,
    made: Option<Id>,
)
    requires
        match made {
            Some(y) => old.model().root(x) == old.model().root(y) && old.same(new),
            None => *new == *old,
        },
    ensures
        sides_joined(old, new, rule, x, made, false),
{
    reveal(sides_joined);
}

/// The sides were merged.
proof fn lemma_joined_sides<L: Language, N: Analysis<L>>(
    old: &EGraph<L, N>,
    found: &EGraph<L, N>,
    new: &EGraph<L, N>,
    rule: Rewrite<L, N>,
    x: Id,
    y: Id,
)
    requires
        old.same(found),
        found.model().root(x) != found.model().root(y),
        merged_for(found, new, x, y, Reason::Rule(rule.name@)),
        new.reason() == Reason::Rule("congruence"@),
    ensures
        sides_joined(old, new, rule, x, Some(y), true),
{
    assert forall|id: Id| #[trigger] old.class_data(id) == found.class_data(id) by {
        assert(found.class_data(id) == old.class_data(id));
    }
    lemma_relabelled(found, new, old, new, x, y, Reason::Rule(rule.name@));
    reveal(sides_joined);
}

/// Acting upon a match, put together from its parts.
proof fn lemma_apply_step<L: Language, N: Analysis<L>>(
    old: &EGraph<L, N>,
    left: &EGraph<L, N>,
    right: &EGraph<L, N>,
    new: &EGraph<L, N>,
    rule: Rewrite<L, N>,
    hit: Hit,
    x: Id,
    made: Option<Id>,
    merged: bool,
)
    requires
        left_built(old, left, rule, hit, x),
        right_made(left, right, rule, hit, made),
        sides_joined(right, new, rule, x, made, merged),
        leads(old, left, right),
        leads(old, right, new),
        right.model().has(x),
        made is Some ==> right.model().has(made->0),
    ensures
        apply_step(old, new, rule, hit, merged),
{
    reveal(apply_step);
}

} // verus!
