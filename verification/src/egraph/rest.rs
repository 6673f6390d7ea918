//! Graphs on which a set of rules has nothing left to do.

use super::closure::tidy;
use super::config::RunConfig;
use super::instantiate::fixed_arity;
use super::lang::{Id, Language};
use super::matching::{bounds, matches_of, stands_for, Bound};
use super::meaning::{allowed, found_in};
use super::rewrite::{Lhs, Rewrite, Rhs, Subst, MATCHED_LHS};
use super::saturate::{
    all_quiet, match_settled, must_pass, rule_says, run_ended, saturated, StopReason,
};
use super::{ClassData, EGraph};
use vstd::prelude::*;

verus! {

impl<L: Language, N: ClassData> EGraph<L, N> {
    /// This graph and `other` agree on all that can be read from them.
    pub open spec fn alike(&self, other: &Self) -> bool {
        &&& other.model() == self.model()
        &&& other.edges() == self.edges()
        &&& other.terms() == self.terms()
        &&& other.watchers() == self.watchers()
        &&& other.stale() == self.stale()
        &&& other.reason() == self.reason()
        &&& forall|id: Id|
            #![trigger other.class_data(id)]
            self.model().has(id) ==> other.class_data(id) == self.class_data(id)
    }
}

/// Agreeing is transitive.
pub proof fn lemma_alike_trans<L: Language, N: ClassData>(
    a: &EGraph<L, N>,
    b: &EGraph<L, N>,
    c: &EGraph<L, N>,
)
    requires
        a.alike(b),
        b.alike(c),
    ensures
        a.alike(c),
{
    assert forall|id: Id|
        #![trigger c.class_data(id)]
        a.model().has(id) implies c.class_data(id) == a.class_data(id) by {
        assert(b.class_data(id) == a.class_data(id));
    }
}

impl<L: Language, N: ClassData> Rewrite<L, N> {
    /// The guard of the rule and its dynamic matcher, if it has them, answer by
    /// what can be read from the graph, and the same each time.
    pub open spec fn steady(&self) -> bool {
        &&& match self.condition {
            Some(condition) => {
                &&& forall|g: &EGraph<L, N>, h: &EGraph<L, N>, s: &Subst, t: &Subst, yes: bool|
                    #![trigger condition.says(g, s, yes), condition.says(h, t, yes)]
                    g.alike(h) && s@ == t@ ==> condition.says(g, s, yes) == condition.says(
                        h,
                        t,
                        yes,
                    )
                &&& forall|g: &EGraph<L, N>, s: &Subst, t: &Subst|
                    #![trigger condition.says(g, s, true), condition.says(g, t, false)]
                    s@ == t@ ==> !(condition.says(g, s, true) && condition.says(g, t, false))
            },
            None => true,
        }
        &&& match self.lhs {
            Lhs::Dynamic(matcher) => {
                &&& forall|g: &EGraph<L, N>, h: &EGraph<L, N>, id: Id, x: &Vec<Subst>|
                    #![trigger matcher.finds(g, id, x), matcher.finds(h, id, x)]
                    g.alike(h) ==> matcher.finds(g, id, x) == matcher.finds(h, id, x)
                &&& forall|g: &EGraph<L, N>, id: Id, x: &Vec<Subst>, y: &Vec<Subst>|
                    #![trigger matcher.finds(g, id, x), matcher.finds(g, id, y)]
                    matcher.finds(g, id, x) && matcher.finds(g, id, y) ==> bounds(x@) == bounds(y@)
            },
            Lhs::Pattern(_) => true,
        }
    }
}

/// The guards and dynamic matchers of all rules are steady.
pub open spec fn all_steady<L: Language, N: ClassData>(rules: Seq<Rewrite<L, N>>) -> bool {
    forall|i: int| #![trigger rules[i]] 0 <= i < rules.len() ==> rules[i].steady()
}

/// The graph is in order, and the rules have nothing left to say about it.
pub open spec fn at_rest<L: Language, N: ClassData>(
    egraph: &EGraph<L, N>,
    rules: Seq<Rewrite<L, N>>,
) -> bool {
    &&& fixed_arity::<L>()
    &&& all_quiet(rules)
    &&& all_steady(rules)
    &&& egraph.settled()
    &&& tidy(egraph.model())
    &&& saturated(egraph, rules)
}

/// A run on a graph at rest leaves it as it is.
pub open spec fn left_at_rest<L: Language, N: ClassData>(
    old: &EGraph<L, N>,
    new: &EGraph<L, N>,
    rules: Seq<Rewrite<L, N>>,
) -> bool {
    at_rest(old, rules) ==> old.alike(new)
}

/// A guard that is bound to let a match pass in one graph is so in a graph that
/// agrees with it.
proof fn lemma_must_pass_alike<L: Language, N: ClassData>(
    a: &EGraph<L, N>,
    b: &EGraph<L, N>,
    rule: Rewrite<L, N>,
    s: Bound,
)
    requires
        a.alike(b),
        rule.steady(),
        must_pass(rule, b, s),
    ensures
        must_pass(rule, a, s),
{
    if let Some(condition) = rule.condition {
        assert forall|subst: &Subst|
            #![trigger condition.says(a, subst, false)]
            subst@ == s implies !condition.says(a, subst, false) by {
            assert(!condition.says(b, subst, false));
        }
    }
}

/// What the rules have nothing left to say about, they have nothing left to
/// say about in a graph that agrees with it.
proof fn lemma_saturated_alike<L: Language, N: ClassData>(
    a: &EGraph<L, N>,
    b: &EGraph<L, N>,
    rules: Seq<Rewrite<L, N>>,
)
    requires
        a.alike(b),
        all_steady(rules),
        saturated(a, rules),
    ensures
        saturated(b, rules),
{
    assert forall|i: int, id: Id|
        #![trigger rule_says(b, rules[i], id)]
        0 <= i < rules.len() && b.model().has(id) && b.model().root(id) == id implies rule_says(
        b,
        rules[i],
        id,
    ) by {
        assert(rules[i].steady());
        assert(rule_says(a, rules[i], id));
        match rules[i].lhs {
            Lhs::Pattern(p) => {
                assert forall|s: Bound| #[trigger]
                    matches_of(b.model(), p, id, Map::empty()).contains(s) implies match_settled(
                    b,
                    rules[i],
                    id,
                    s,
                ) by {
                    assert(matches_of(a.model(), p, id, Map::empty()).contains(s));
                    lemma_settled_alike(a, b, rules[i], id, s);
                }
            },
            Lhs::Dynamic(matcher) => {
                let substs = choose|substs: &Vec<Subst>|
                    {
                        &&& #[trigger] matcher.finds(a, id, substs)
                        &&& forall|k: int|
                            #![trigger substs@[k]]
                            0 <= k < substs@.len() ==> match_settled(a, rules[i], id, substs@[k]@)
                    };
                assert(matcher.finds(b, id, substs));
                assert forall|k: int|
                    #![trigger substs@[k]]
                    0 <= k < substs@.len() implies match_settled(b, rules[i], id, substs@[k]@) by {
                    lemma_settled_alike(a, b, rules[i], id, substs@[k]@);
                }
            },
        }
    }
}

proof fn lemma_settled_alike<L: Language, N: ClassData>(
    a: &EGraph<L, N>,
    b: &EGraph<L, N>,
    rule: Rewrite<L, N>,
    id: Id,
    s: Bound,
)
    requires
        a.alike(b),
        rule.steady(),
        match_settled(a, rule, id, s),
    ensures
        match_settled(b, rule, id, s),
{
    let t = s.insert(MATCHED_LHS@, id);
    if must_pass(rule, b, t) {
        lemma_must_pass_alike(a, b, rule, t);
    }
}

/// A graph that agrees with one at rest is at rest.
pub proof fn lemma_rest_alike<L: Language, N: ClassData>(
    a: &EGraph<L, N>,
    b: &EGraph<L, N>,
    rules: Seq<Rewrite<L, N>>,
)
    requires
        a.alike(b),
        at_rest(a, rules),
    ensures
        at_rest(b, rules),
{
    lemma_saturated_alike(a, b, rules);
}

/// In a graph at rest the class of a match stands for the right-hand side.
pub proof fn lemma_rest_match<L: Language, N: ClassData>(
    egraph: &EGraph<L, N>,
    rules: Seq<Rewrite<L, N>>,
    i: int,
    id: Id,
    subst: &Subst,
)
    requires
        at_rest(egraph, rules),
        0 <= i < rules.len(),
        allowed(rules[i], egraph, subst),
        subst@.contains_key(MATCHED_LHS@),
        subst@[MATCHED_LHS@] == id,
    ensures
        rules[i].rhs matches Rhs::Pattern(r) && stands_for(egraph.model(), id, r, subst@),
{
    let rule = rules[i];
    assert(rule.quiet() && rule.steady());
    let (other, t) = choose|other: Id, t: Bound| #[trigger]
        found_in(rule, egraph, other, t) && subst@ == t.insert(MATCHED_LHS@, other);
    assert(other == id);
    assert(rule_says(egraph, rule, id));
    lemma_alike_refl(egraph);
    assert(must_pass(rule, egraph, subst@)) by {
        if let Some(condition) = rule.condition {
            assert(condition.says(egraph, subst, true));
        }
    }
    match rule.lhs {
        Lhs::Pattern(p) => {
            assert(matches_of(egraph.model(), p, id, Map::empty()).contains(t));
            assert(match_settled(egraph, rule, id, t));
        },
        Lhs::Dynamic(matcher) => {
            let (substs, k) = choose|substs: &Vec<Subst>, k: int|
                #![trigger matcher.finds(egraph, id, substs), substs@[k]]
                matcher.finds(egraph, id, substs) && 0 <= k < substs@.len() && substs@[k]@ == t;
            let known = choose|known: &Vec<Subst>|
                {
                    &&& #[trigger] matcher.finds(egraph, id, known)
                    &&& forall|k: int|
                        #![trigger known@[k]]
                        0 <= k < known@.len() ==> match_settled(egraph, rule, id, known@[k]@)
                };
            assert(bounds(substs@) == bounds(known@));
            assert(bounds(substs@)[k] == t);
            assert(bounds(known@)[k] == known@[k]@);
            assert(match_settled(egraph, rule, id, known@[k]@));
        },
    }
}

/// A graph agrees with itself.
proof fn lemma_alike_refl<L: Language, N: ClassData>(egraph: &EGraph<L, N>)
    ensures
        egraph.alike(egraph),
{
}

/// Once a run has saturated the graph, another run with the same rules changes
/// nothing. This speaks of rules that add nothing unless they merge, with steady
/// guards and matchers, and of a run whose last iteration started on a rebuilt
/// graph.
pub proof fn law_second_run_changes_nothing<L: Language, N: ClassData>(
    old: &EGraph<L, N>,
    new: &EGraph<L, N>,
    again: &EGraph<L, N>,
    rules: Seq<Rewrite<L, N>>,
    config: RunConfig,
    iterations: usize,
)
    requires
        fixed_arity::<L>(),
        all_quiet(rules),
        all_steady(rules),
        iterations > 1 || (tidy(old.model()) && old.settled()),
        run_ended(old, new, rules, config, StopReason::Saturated { iterations }),
        left_at_rest(new, again, rules),
    ensures
        at_rest(new, rules),
        new.alike(again),
{
    let last = choose|last: &EGraph<L, N>| #[trigger]
        saturated(last, rules) && last.wf() && last.alike(new);
    lemma_saturated_alike(last, new, rules);
}

} // verus!
