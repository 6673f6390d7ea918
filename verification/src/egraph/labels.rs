//! Why the proof edges that equality saturation adds are there.

use super::forest::{with_edge, Edges, Reason};
use super::hooks::HookEvent;
use super::lang::{Id, Language};
use super::matching::{stands_for, Bound};
use super::meaning::allowed;
use super::model::Model;
use super::rebuild::{
    by_congruence, edges_by_congruence, is_old_edge, lemma_by_congruence_grows, lemma_quiet_grows,
};
use super::rewrite::{Lhs, Rewrite, Rhs, Subst, MATCHED_LHS};
use super::{extends, ClassData, EGraph};
use vstd::prelude::*;

verus! {

/// `a` and `b` are of different classes; `a` stands for the left-hand side of
/// the rule under `s`, and `b` for its right-hand side, if that is static.
pub open spec fn rule_sides<L: Language, N: ClassData>(
    m: Model<L>,
    rule: Rewrite<L, N>,
    s: Bound,
    a: Id,
    b: Id,
) -> bool {
    &&& m.has(a) && m.has(b) && m.root(a) != m.root(b)
    &&& match rule.lhs {
        Lhs::Pattern(p) => stands_for(m, a, p, s),
        Lhs::Dynamic(_) => m.root(a) == m.root(s[MATCHED_LHS@]),
    }
    &&& match rule.rhs {
        Rhs::Pattern(r) => stands_for(m, b, r, s),
        _ => true,
    }
}

/// On the way from `old` to `new`, `a` and `b` were the sides of the rule.
#[verifier::opaque]
pub open spec fn rule_joined<L: Language, N: ClassData>(
    old: &EGraph<L, N>,
    new: &EGraph<L, N>,
    rule: Rewrite<L, N>,
    s: Bound,
    a: Id,
    b: Id,
) -> bool {
    exists|mid: &EGraph<L, N>|
        {
            &&& #[trigger] rule_sides(mid.model(), rule, s, a, b)
            &&& mid.safe()
            &&& old.grows_into(mid)
            &&& mid.grows_into(new)
        }
}

/// The edge between `a` and `b` names the rule, whose sides they were.
pub open spec fn rule_labelled<L: Language, N: ClassData>(
    old: &EGraph<L, N>,
    new: &EGraph<L, N>,
    rule: Rewrite<L, N>,
    s: Bound,
    a: Id,
    b: Id,
    reason: Reason,
) -> bool {
    &&& reason == Reason::Rule(rule.name@)
    &&& rule_joined(old, new, rule, s, a, b) || rule_joined(old, new, rule, s, b, a)
}

/// On the way from `old` to `new` a match of one of the rules `on` was found,
/// let pass and acted upon: its sides are `a` and `b`, and `reason` names it.
#[verifier::opaque]
pub open spec fn by_rule<L: Language, N: ClassData>(
    old: &EGraph<L, N>,
    new: &EGraph<L, N>,
    rules: Seq<Rewrite<L, N>>,
    on: Set<int>,
    a: Id,
    b: Id,
    reason: Reason,
) -> bool {
    exists|i: int, first: &EGraph<L, N>, subst: &Subst|
        {
            &&& 0 <= i < rules.len() && on.contains(i)
            &&& #[trigger] allowed(rules[i], first, subst)
            &&& first.wf()
            &&& old.grows_into(first)
            &&& rule_labelled(first, new, rules[i], subst@, a, b, reason)
        }
}

/// The edge between `a` and `b` is accounted for.
pub open spec fn accounted<L: Language, N: ClassData>(
    old: &EGraph<L, N>,
    new: &EGraph<L, N>,
    rules: Seq<Rewrite<L, N>>,
    on: Set<int>,
    a: Id,
    b: Id,
    reason: Reason,
) -> bool {
    by_congruence(old, new, a, b, reason) || by_rule(old, new, rules, on, a, b, reason)
}

/// Every proof edge of `new` that `old` does not have is a congruence, or a
/// merge by one of the rules `on`.
pub open spec fn edges_by_rules<L: Language, N: ClassData>(
    old: &EGraph<L, N>,
    new: &EGraph<L, N>,
    rules: Seq<Rewrite<L, N>>,
    on: Set<int>,
) -> bool {
    forall|i: int, e: int|
        #![trigger new.edges()[i][e]]
        0 <= i < new.edges().len() && 0 <= e < new.edges()[i].len() ==> is_old_edge(
            old.edges(),
            i,
            e,
        ) || accounted(
            old,
            new,
            rules,
            on,
            Id(i as u32),
            new.edges()[i][e].0,
            new.edges()[i][e].1,
        )
}

/// Every proof edge of `new` that `old` does not have comes from this match.
pub open spec fn edges_by_match<L: Language, N: ClassData>(
    old: &EGraph<L, N>,
    new: &EGraph<L, N>,
    rule: Rewrite<L, N>,
    s: Bound,
) -> bool {
    forall|i: int, e: int|
        #![trigger new.edges()[i][e]]
        0 <= i < new.edges().len() && 0 <= e < new.edges()[i].len() ==> is_old_edge(
            old.edges(),
            i,
            e,
        ) || rule_labelled(
            old,
            new,
            rule,
            s,
            Id(i as u32),
            new.edges()[i][e].0,
            new.edges()[i][e].1,
        )
}

/// There are more rows, but no more edges.
pub open spec fn no_new_edges(old: Edges, new: Edges) -> bool {
    &&& old.len() <= new.len()
    &&& forall|i: int|
        #![trigger new[i]]
        0 <= i < new.len() ==> if i < old.len() {
            new[i] == old[i]
        } else {
            new[i].len() == 0
        }
}

/// There is a new edge that names one of the rules.
pub open spec fn rule_edge_added<L: Language, N: ClassData>(
    old: Edges,
    new: Edges,
    rules: Seq<Rewrite<L, N>>,
) -> bool {
    exists|i: int, e: int, k: int|
        #![trigger new[i][e], rules[k]]
        0 <= i < new.len() && 0 <= e < new[i].len() && !is_old_edge(old, i, e) && 0 <= k
            < rules.len() && new[i][e].1 == Reason::Rule(rules[k].name@)
}

/// What happened on a part of the way happened on the whole way.
proof fn lemma_rule_joined_grows<L: Language, N: ClassData>(
    first: &EGraph<L, N>,
    old: &EGraph<L, N>,
    new: &EGraph<L, N>,
    last: &EGraph<L, N>,
    rule: Rewrite<L, N>,
    s: Bound,
    a: Id,
    b: Id,
)
    requires
        first.safe(),
        old.safe(),
        new.safe(),
        last.safe(),
        first.grows_into(old),
        new.grows_into(last),
        rule_joined(old, new, rule, s, a, b),
    ensures
        rule_joined(first, last, rule, s, a, b),
{
    reveal(rule_joined);
    let mid = choose|mid: &EGraph<L, N>|
        {
            &&& #[trigger] rule_sides(mid.model(), rule, s, a, b)
            &&& mid.safe()
            &&& old.grows_into(mid)
            &&& mid.grows_into(new)
        };
    EGraph::lemma_grows_trans(first, old, mid);
    EGraph::lemma_grows_trans(mid, new, last);
    assert(rule_sides(mid.model(), rule, s, a, b));
}

/// What happened on a part of the way happened on the whole way.
pub proof fn lemma_rule_labelled_grows<L: Language, N: ClassData>(
    first: &EGraph<L, N>,
    old: &EGraph<L, N>,
    new: &EGraph<L, N>,
    last: &EGraph<L, N>,
    rule: Rewrite<L, N>,
    s: Bound,
    a: Id,
    b: Id,
    reason: Reason,
)
    requires
        first.safe(),
        old.safe(),
        new.safe(),
        last.safe(),
        first.grows_into(old),
        new.grows_into(last),
        rule_labelled(old, new, rule, s, a, b, reason),
    ensures
        rule_labelled(first, last, rule, s, a, b, reason),
{
    if rule_joined(old, new, rule, s, a, b) {
        lemma_rule_joined_grows(first, old, new, last, rule, s, a, b);
    } else {
        lemma_rule_joined_grows(first, old, new, last, rule, s, b, a);
    }
}

/// What happened on a part of the way, by some of the rules, happened on the
/// whole way, by more of them.
proof fn lemma_accounted_grows<L: Language, N: ClassData>(
    first: &EGraph<L, N>,
    old: &EGraph<L, N>,
    new: &EGraph<L, N>,
    last: &EGraph<L, N>,
    rules: Seq<Rewrite<L, N>>,
    on: Set<int>,
    more: Set<int>,
    a: Id,
    b: Id,
    reason: Reason,
)
    requires
        first.safe(),
        old.safe(),
        new.safe(),
        last.safe(),
        first.grows_into(old),
        new.grows_into(last),
        on.subset_of(more),
        accounted(old, new, rules, on, a, b, reason),
    ensures
        accounted(first, last, rules, more, a, b, reason),
{
    if by_congruence(old, new, a, b, reason) {
        lemma_by_congruence_grows(first, old, new, last, a, b, reason);
    } else {
        reveal(by_rule);
        let (i, found, subst) = choose|i: int, found: &EGraph<L, N>, subst: &Subst|
            {
                &&& 0 <= i < rules.len() && on.contains(i)
                &&& #[trigger] allowed(rules[i], found, subst)
                &&& found.wf()
                &&& old.grows_into(found)
                &&& rule_labelled(found, new, rules[i], subst@, a, b, reason)
            };
        EGraph::lemma_grows_trans(first, old, found);
        lemma_quiet_grows(found);
        lemma_rule_labelled_grows(found, found, new, last, rules[i], subst@, a, b, reason);
        assert(allowed(rules[i], found, subst));
    }
}

/// Edges that came in two steps are accounted for.
pub proof fn lemma_rule_edges_trans<L: Language, N: ClassData>(
    a: &EGraph<L, N>,
    b: &EGraph<L, N>,
    c: &EGraph<L, N>,
    rules: Seq<Rewrite<L, N>>,
    on: Set<int>,
    also: Set<int>,
    more: Set<int>,
)
    requires
        a.safe(),
        b.safe(),
        c.safe(),
        a.grows_into(b),
        b.grows_into(c),
        on.subset_of(more),
        also.subset_of(more),
        edges_by_rules(a, b, rules, on),
        edges_by_rules(b, c, rules, also),
    ensures
        edges_by_rules(a, c, rules, more),
{
    lemma_quiet_grows(a);
    lemma_quiet_grows(c);
    lemma_rows_extend(b, c);
    assert forall|i: int, e: int|
        #![trigger c.edges()[i][e]]
        0 <= i < c.edges().len() && 0 <= e < c.edges()[i].len() implies is_old_edge(
        a.edges(),
        i,
        e,
    ) || accounted(
        a,
        c,
        rules,
        more,
        Id(i as u32),
        c.edges()[i][e].0,
        c.edges()[i][e].1,
    ) by {
        let (to, reason) = c.edges()[i][e];
        if is_old_edge(b.edges(), i, e) {
            assert(b.edges()[i][e] == c.edges()[i][e]);
            if !is_old_edge(a.edges(), i, e) {
                lemma_accounted_grows(a, a, b, c, rules, on, more, Id(i as u32), to, reason);
            }
        } else {
            lemma_accounted_grows(a, b, c, c, rules, also, more, Id(i as u32), to, reason);
        }
    }
}

/// The rows of a graph that grew start with the old ones.
pub proof fn lemma_rows_extend<L: Language, N: ClassData>(old: &EGraph<L, N>, new: &EGraph<L, N>)
    requires
        old.grows_into(new),
    ensures
        old.edges().len() <= new.edges().len(),
        forall|i: int, e: int|
            #![trigger new.edges()[i][e]]
            0 <= i < old.edges().len() && 0 <= e < old.edges()[i].len() ==> e
                < new.edges()[i].len() && new.edges()[i][e] == old.edges()[i][e],
        forall|i: int|
            #![trigger new.edges()[i]]
            0 <= i < old.edges().len() ==> old.edges()[i].len() <= new.edges()[i].len(),
{
    let events = choose|events: Seq<HookEvent<L>>| #[trigger] old.evolved(new, events);
    assert forall|i: int, e: int|
        #![trigger new.edges()[i][e]]
        0 <= i < old.edges().len() && 0 <= e < old.edges()[i].len() implies e
        < new.edges()[i].len() && new.edges()[i][e] == old.edges()[i][e] by {
        assert(extends(old.edges()[i], new.edges()[i]));
    }
    assert forall|i: int|
        #![trigger new.edges()[i]]
        0 <= i < old.edges().len() implies old.edges()[i].len() <= new.edges()[i].len() by {
        assert(extends(old.edges()[i], new.edges()[i]));
    }
}

/// The edges of one match, and of the congruences that follow, are accounted
/// for.
pub proof fn lemma_match_accounted<L: Language, N: ClassData>(
    start: &EGraph<L, N>,
    old: &EGraph<L, N>,
    new: &EGraph<L, N>,
    rules: Seq<Rewrite<L, N>>,
    on: Set<int>,
    k: int,
    subst: &Subst,
)
    requires
        start.wf(),
        old.safe(),
        new.safe(),
        start.grows_into(old),
        old.grows_into(new),
        0 <= k < rules.len(),
        on.contains(k),
        allowed(rules[k], start, subst),
        edges_by_rules(start, old, rules, on),
        edges_by_match(old, new, rules[k], subst@),
    ensures
        edges_by_rules(start, new, rules, on),
{
    lemma_quiet_grows(start);
    lemma_quiet_grows(new);
    lemma_rows_extend(old, new);
    assert forall|i: int, e: int|
        #![trigger new.edges()[i][e]]
        0 <= i < new.edges().len() && 0 <= e < new.edges()[i].len() implies is_old_edge(
        start.edges(),
        i,
        e,
    ) || accounted(
        start,
        new,
        rules,
        on,
        Id(i as u32),
        new.edges()[i][e].0,
        new.edges()[i][e].1,
    ) by {
        let (to, reason) = new.edges()[i][e];
        if is_old_edge(old.edges(), i, e) {
            assert(old.edges()[i][e] == new.edges()[i][e]);
            if !is_old_edge(start.edges(), i, e) {
                lemma_accounted_grows(start, start, old, new, rules, on, on, Id(i as u32), to, reason);
            }
        } else {
            lemma_rule_labelled_grows(
                start,
                old,
                new,
                new,
                rules[k],
                subst@,
                Id(i as u32),
                to,
                reason,
            );
            reveal(by_rule);
            assert(allowed(rules[k], start, subst));
            assert(by_rule(start, new, rules, on, Id(i as u32), to, reason));
        }
    }
}

/// Congruences are accounted for.
pub proof fn lemma_congruence_accounted<L: Language, N: ClassData>(
    old: &EGraph<L, N>,
    new: &EGraph<L, N>,
    rules: Seq<Rewrite<L, N>>,
    on: Set<int>,
)
    requires
        edges_by_congruence(old, new),
    ensures
        edges_by_rules(old, new, rules, on),
{
}

/// A merge of the two sides of a rule adds an edge that names it.
pub proof fn lemma_merge_labelled<L: Language, N: ClassData>(
    old: &EGraph<L, N>,
    found: &EGraph<L, N>,
    new: &EGraph<L, N>,
    rule: Rewrite<L, N>,
    s: Bound,
    a: Id,
    b: Id,
)
    requires
        old.safe(),
        found.safe(),
        new.safe(),
        old.grows_into(found),
        found.grows_into(new),
        no_new_edges(old.edges(), found.edges()),
        found.model().has(a),
        found.model().has(b),
        a.at() < found.edges().len(),
        b.at() < found.edges().len(),
        rule_sides(found.model(), rule, s, a, b),
        new.edges() == with_edge(found.edges(), a, b, Reason::Rule(rule.name@)),
    ensures
        edges_by_match(old, new, rule, s),
{
    let reason = Reason::Rule(rule.name@);
    assert(rule_joined(old, new, rule, s, a, b)) by {
        reveal(rule_joined);
        assert(rule_sides(found.model(), rule, s, a, b));
    }
    let (was, now) = (found.edges(), new.edges());
    assert(a != b);
    assert(now[a.at()] =~= was[a.at()].push((b, reason)));
    assert(now[b.at()] =~= was[b.at()].push((a, reason)));
    assert(forall|i: int| 0 <= i < was.len() && i != a.at() && i != b.at() ==> now[i] == was[i]);
    assert forall|i: int, e: int|
        #![trigger new.edges()[i][e]]
        0 <= i < new.edges().len() && 0 <= e < new.edges()[i].len() implies is_old_edge(
        old.edges(),
        i,
        e,
    ) || rule_labelled(
        old,
        new,
        rule,
        s,
        Id(i as u32),
        new.edges()[i][e].0,
        new.edges()[i][e].1,
    ) by {
        if e < was[i].len() {
            assert(i < old.edges().len());
            assert(was[i] == old.edges()[i]);
        } else if i == a.at() {
            assert(now[i][e] == (b, reason));
            assert(Id(i as u32) == a);
        } else {
            assert(i == b.at());
            assert(now[i][e] == (a, reason));
            assert(Id(i as u32) == b);
        }
    }
}

} // verus!
