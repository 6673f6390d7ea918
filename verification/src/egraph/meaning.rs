//! What the terms of an e-graph mean, and that equality saturation respects it.
//!
//! A reading gives every operator a function from the values of its children to
//! a value. It fits a graph if every class has one value, and every e-node in
//! the class has that value.

use super::closure::{congruent, forced};
use super::extract::{represents, Expr};
use super::instantiate::fixed_arity;
use super::lang::{lawful, Id, Language};
use super::matching::{bound_in, matches_of, node_stands_for, stands_for, Bound};
use super::model::{canon, canon_ids, coarsens, holds_node, lemma_canon_eq, Model};
use super::rewrite::{Lhs, Pattern, Rewrite, Rhs, Subst, MATCHED_LHS};
use super::steps::{addable, mergeable};
use super::{extends, Analysis, ClassData, EGraph};
use vstd::prelude::*;

verus! {

/// What the operator of a node makes of the values of its children.
pub type Reading<L> = spec_fn(L, Seq<int>) -> int;

/// The values of `ids`.
pub open spec fn values(vals: Seq<int>, ids: Seq<Id>) -> Seq<int> {
    Seq::new(ids.len(), |i: int| vals[ids[i].at()])
}

/// The reading looks at the operator of a node alone, not at its child ids.
pub open spec fn by_operator<L: Language>(eval: Reading<L>) -> bool {
    forall|a: L, b: L, parts: Seq<int>|
        #![trigger eval(a, parts), eval(b, parts)]
        a.same_op(&b) ==> eval(a, parts) == eval(b, parts)
}

/// Under the reading, with the value `vals[i]` for the id `i`, equal ids have
/// one value, and every e-node has the value of its class.
#[verifier::opaque]
pub open spec fn models<L: Language>(m: Model<L>, eval: Reading<L>, vals: Seq<int>) -> bool {
    &&& vals.len() == m.len()
    &&& forall|i: int, j: int|
        #![trigger m.roots[i], m.roots[j]]
        0 <= i < m.len() && 0 <= j < m.len() && m.roots[i] == m.roots[j] ==> vals[i] == vals[j]
    &&& forall|k: int, a: int|
        #![trigger m.nodes[k][a]]
        0 <= k < m.len() && 0 <= a < m.nodes[k].len() ==> eval(
            m.nodes[k][a],
            values(vals, m.nodes[k][a].kids()),
        ) == vals[k]
}

/// The values can be kept, and values for the new ids be found, such that the
/// reading fits.
pub open spec fn carries<L: Language>(m: Model<L>, eval: Reading<L>, vals: Seq<int>) -> bool {
    exists|more: Seq<int>| #[trigger] models(m, eval, more) && extends(vals, more)
}

/// Every reading that fits `m` can be carried on to `n`.
pub open spec fn readable<L: Language>(m: Model<L>, n: Model<L>) -> bool {
    forall|eval: Reading<L>, vals: Seq<int>| #[trigger]
        models(m, eval, vals) && by_operator(eval) ==> carries(n, eval, vals)
}

/// The values of bound variables.
pub open spec fn env_of(vals: Seq<int>, s: Bound) -> Map<Seq<char>, int> {
    Map::new(|name: Seq<char>| s.contains_key(name), |name: Seq<char>| vals[s[name].at()])
}

/// The value of a pattern.
pub open spec fn meaning<L: Language>(
    eval: Reading<L>,
    p: Pattern<L>,
    env: Map<Seq<char>, int>,
) -> int
    decreases p,
{
    match p {
        Pattern::Var(name) => env[name@],
        Pattern::Op { node, children } => eval(node, meanings(eval, children@, env)),
    }
}

/// The values of patterns.
pub open spec fn meanings<L: Language>(
    eval: Reading<L>,
    patterns: Seq<Pattern<L>>,
    env: Map<Seq<char>, int>,
) -> Seq<int>
    decreases patterns,
{
    Seq::new(
        patterns.len(),
        |i: int|
            if 0 <= i < patterns.len() {
                meaning(eval, patterns[i], env)
            } else {
                0
            },
    )
}

/// A match of the left-hand side of the rule in class `id` may bind `t`.
pub open spec fn found_in<L: Language, N: ClassData>(
    rule: Rewrite<L, N>,
    egraph: &EGraph<L, N>,
    id: Id,
    t: Bound,
) -> bool {
    &&& egraph.model().has(id)
    &&& egraph.model().root(id) == id
    &&& match rule.lhs {
        Lhs::Pattern(p) => matches_of(egraph.model(), p, id, Map::empty()).contains(t),
        Lhs::Dynamic(matcher) => exists|substs: &Vec<Subst>, k: int|
            #![trigger matcher.finds(egraph, id, substs), substs@[k]]
            matcher.finds(egraph, id, substs) && 0 <= k < substs@.len() && substs@[k]@ == t,
    }
}

/// The left-hand side of a rule may find this match, and its guard may let it
/// pass.
pub open spec fn allowed<L: Language, N: ClassData>(
    rule: Rewrite<L, N>,
    egraph: &EGraph<L, N>,
    subst: &Subst,
) -> bool {
    &&& exists|id: Id, t: Bound| #[trigger]
        found_in(rule, egraph, id, t) && subst@ == t.insert(MATCHED_LHS@, id)
    &&& match rule.condition {
        Some(condition) => condition.says(egraph, subst, true),
        None => true,
    }
}

/// The e-node `node` of the class of `id` is one that the operator pattern `p`
/// matched under `s`. Patterns that use the reserved name are not spoken of.
pub open spec fn is_matched<L: Language>(
    m: Model<L>,
    p: Pattern<L>,
    id: Id,
    s: Bound,
    node: L,
) -> bool {
    &&& m.knows(node)
    &&& holds_node(m.roots, m.class(id), canon(m.roots, node))
    &&& p is Op && node.same_op(&p->node)
    &&& !p.uses(MATCHED_LHS@) ==> node_stands_for(m, id, node, p, s)
}

/// A node applier may get `node` for a match in class `id` that binds `s`: the
/// e-node that a static left-hand side matched, else the first one of the
/// class.
pub open spec fn is_handed<L: Language, N: ClassData>(
    m: Model<L>,
    rule: Rewrite<L, N>,
    id: Id,
    s: Bound,
    node: L,
) -> bool {
    match rule.lhs {
        Lhs::Pattern(p) => if p is Op {
            is_matched(m, p, id, s, node)
        } else {
            node == m.class(id)[0]
        },
        Lhs::Dynamic(_) => node == m.class(id)[0],
    }
}

/// The value of what a match is about: of the static left-hand side, or of the
/// class that a dynamic one matched.
pub open spec fn left_value<L: Language, N: ClassData>(
    eval: Reading<L>,
    rule: Rewrite<L, N>,
    env: Map<Seq<char>, int>,
) -> int {
    match rule.lhs {
        Lhs::Pattern(p) => meaning(eval, p, env),
        Lhs::Dynamic(_) => env[MATCHED_LHS@],
    }
}

/// The values can be kept, and values for the new ids be found, such that the
/// reading fits and gives `value` to the id that was made, if any.
pub open spec fn carries_made<L: Language>(
    m: Model<L>,
    eval: Reading<L>,
    vals: Seq<int>,
    made: Option<Id>,
    value: int,
) -> bool {
    exists|more: Seq<int>| #[trigger]
        models(m, eval, more) && extends(vals, more) && (made matches Some(id) ==> more[id.at()]
            == value)
}

/// Both sides of a rule have one value under these bindings. For an applier
/// that means: whenever it is called with them, the reading can be carried on
/// to the graph that it leaves, and what it returns gets the value of the
/// left-hand side.
pub open spec fn agrees<L: Language, N: ClassData>(
    eval: Reading<L>,
    rule: Rewrite<L, N>,
    vals: Seq<int>,
    s: Bound,
) -> bool {
    let value = left_value(eval, rule, env_of(vals, s));
    &&& rule.lhs matches Lhs::Pattern(p) ==> p.regular()
    &&& match rule.rhs {
        Rhs::Pattern(r) => r.regular() && value == meaning(eval, r, env_of(vals, s)),
        Rhs::Dynamic(applier) => forall|
            before: &EGraph<L, N>,
            subst: &Subst,
            after: &EGraph<L, N>,
            made: Option<Id>,
            now: Seq<int>,
        |
            #![trigger applier.does(before, subst, after, made), models(before.model(), eval, now)]
            applier.does(before, subst, after, made) && subst@ == s && called(before, after)
                && models(before.model(), eval, now) && extends(vals, now) ==> carries_made(
                after.model(),
                eval,
                now,
                made,
                value,
            ),
        Rhs::DynamicNode(applier) => forall|
            before: &EGraph<L, N>,
            subst: &Subst,
            node: L,
            after: &EGraph<L, N>,
            made: Option<Id>,
            now: Seq<int>,
        |
            #![trigger applier.does(before, subst, &node, after, made), models(before.model(), eval, now)]
            applier.does(before, subst, &node, after, made) && subst@ == s && called(before, after)
                && is_handed(before.model(), rule, s[MATCHED_LHS@], s, node) && models(
                before.model(),
                eval,
                now,
            ) && extends(vals, now) ==> carries_made(after.model(), eval, now, made, value),
    }
}

/// An applier can have been called on `before` and left `after`.
pub open spec fn called<L: Language, N: ClassData>(
    before: &EGraph<L, N>,
    after: &EGraph<L, N>,
) -> bool {
    before.wf() && after.wf() && before.grows_into(after)
}

/// Both sides of the rule have one value under the reading for every match that
/// its left-hand side may find and its guard may let pass.
pub open spec fn holds_under<L: Language, N: ClassData>(
    eval: Reading<L>,
    rule: Rewrite<L, N>,
) -> bool {
    forall|egraph: &EGraph<L, N>, subst: &Subst, vals: Seq<int>|
        #![trigger allowed(rule, egraph, subst), models(egraph.model(), eval, vals)]
        egraph.wf() && models(egraph.model(), eval, vals) && bound_in(egraph.model(), subst@)
            && allowed(rule, egraph, subst) ==> agrees(eval, rule, vals, subst@)
}

/// All rules hold under the reading.
pub open spec fn all_hold<L: Language, N: ClassData>(
    eval: Reading<L>,
    rules: Seq<Rewrite<L, N>>,
) -> bool {
    forall|i: int| #![trigger rules[i]] 0 <= i < rules.len() ==> holds_under(eval, rules[i])
}

/// The analysis respects the reading: it leaves the graph alone, or the reading
/// can be carried on whenever it changes the graph.
pub open spec fn analysis_holds<L: Language, N: Analysis<L>>(eval: Reading<L>) -> bool {
    N::inert() || forall|before: &EGraph<L, N>, id: Id, after: &EGraph<L, N>, vals: Seq<int>|
        #![trigger N::modified(before, id, after), models(before.model(), eval, vals)]
        N::modified(before, id, after) && called(before, after) && before.model().has(id) && models(
            before.model(),
            eval,
            vals,
        ) ==> carries(after.model(), eval, vals)
}

/// Whatever reading fits the graph `old`, makes the rules hold and is respected
/// by the analysis can be carried on to the graph `new`.
pub open spec fn respected<L: Language, N: Analysis<L>>(
    old: Model<L>,
    new: Model<L>,
    rules: Seq<Rewrite<L, N>>,
) -> bool {
    forall|eval: Reading<L>, vals: Seq<int>| #[trigger]
        models(old, eval, vals) && by_operator(eval) && all_hold(eval, rules) && analysis_holds::<
            L,
            N,
        >(eval) ==> carries(new, eval, vals)
}

/// Nothing changed.
pub proof fn lemma_readable_refl<L: Language>(m: Model<L>)
    ensures
        readable(m, m),
{
    assert forall|eval: Reading<L>, vals: Seq<int>| #[trigger]
        models(m, eval, vals) && by_operator(eval) implies carries(m, eval, vals) by {
        assert(extends(vals, vals));
    }
}

/// Carrying on in two steps.
pub proof fn lemma_readable_trans<L: Language>(a: Model<L>, b: Model<L>, c: Model<L>)
    requires
        readable(a, b),
        readable(b, c),
    ensures
        readable(a, c),
{
    assert forall|eval: Reading<L>, vals: Seq<int>| #[trigger]
        models(a, eval, vals) && by_operator(eval) implies carries(c, eval, vals) by {
        let mid = choose|more: Seq<int>| #[trigger] models(b, eval, more) && extends(vals, more);
        lemma_carries_trans(c, eval, vals, mid);
    }
}

/// Carrying on what was carried on.
pub proof fn lemma_carries_trans<L: Language>(
    c: Model<L>,
    eval: Reading<L>,
    vals: Seq<int>,
    mid: Seq<int>,
)
    requires
        extends(vals, mid),
        carries(c, eval, mid),
    ensures
        carries(c, eval, vals),
{
    let more = choose|more: Seq<int>| #[trigger] models(c, eval, more) && extends(mid, more);
    assert(extends(vals, more)) by {
        assert forall|i: int|
            #![trigger more[i]]
            #![trigger vals[i]]
            0 <= i < vals.len() implies more[i] == vals[i] by {
            assert(mid[i] == vals[i]);
        }
    }
}

/// A new e-node gets the value that its operator gives it.
pub proof fn lemma_readable_added<L: Language>(m: Model<L>, node: L)
    requires
        m.shape(),
        addable(m, node),
    ensures
        readable(m, m.added(node)),
{
    reveal(models);
    let n = m.added(node);
    assert forall|eval: Reading<L>, vals: Seq<int>| #[trigger]
        models(m, eval, vals) && by_operator(eval) implies carries(n, eval, vals) by {
        let more = vals.push(eval(node, values(vals, node.kids())));
        let id = Id(m.len() as u32);
        assert forall|i: int, j: int|
            #![trigger n.roots[i], n.roots[j]]
            0 <= i < n.len() && 0 <= j < n.len() && n.roots[i] == n.roots[j] implies more[i]
            == more[j] by {
            if i < m.len() {
                assert(m.roots[i].at() < m.len());
            }
            if j < m.len() {
                assert(m.roots[j].at() < m.len());
            }
        }
        assert forall|k: int, a: int|
            #![trigger n.nodes[k][a]]
            0 <= k < n.len() && 0 <= a < n.nodes[k].len() implies eval(
            n.nodes[k][a],
            values(more, n.nodes[k][a].kids()),
        ) == more[k] by {
            let own = n.nodes[k][a];
            if k < m.len() {
                assert(m.knows(m.nodes[k][a]));
                assert(values(more, own.kids()) =~= values(vals, own.kids()));
            } else {
                assert(own == node);
                assert(values(more, node.kids()) =~= values(vals, node.kids()));
            }
        }
        assert(models(n, eval, more));
        assert(extends(vals, more));
    }
}

/// Two classes of one value can be merged.
pub proof fn lemma_models_merged<L: Language>(
    m: Model<L>,
    a: Id,
    b: Id,
    eval: Reading<L>,
    vals: Seq<int>,
)
    requires
        m.shape(),
        mergeable(m, a, b),
        models(m, eval, vals),
        vals[a.at()] == vals[b.at()],
    ensures
        models(m.merged(a, b), eval, vals),
{
    reveal(models);
    let n = m.merged(a, b);
    assert forall|i: int, j: int|
        #![trigger n.roots[i], n.roots[j]]
        0 <= i < n.len() && 0 <= j < n.len() && n.roots[i] == n.roots[j] implies vals[i]
        == vals[j] by {
        assert(m.roots[a.at()] == a && m.roots[b.at()] == b);
        if m.roots[i] != m.roots[j] {
            if m.roots[i] == b {
                assert(vals[i] == vals[b.at()]);
                assert(m.roots[j] == m.roots[a.at()]);
            } else {
                assert(m.roots[j] == m.roots[b.at()]);
                assert(m.roots[i] == m.roots[a.at()]);
            }
        }
    }
    assert forall|k: int, x: int|
        #![trigger n.nodes[k][x]]
        0 <= k < n.len() && 0 <= x < n.nodes[k].len() implies eval(
        n.nodes[k][x],
        values(vals, n.nodes[k][x].kids()),
    ) == vals[k] by {
        if k == a.at() {
            if x < m.nodes[a.at()].len() {
                assert(n.nodes[k][x] == m.nodes[a.at()][x]);
            } else {
                assert(n.nodes[k][x] == m.nodes[b.at()][x - m.nodes[a.at()].len()]);
            }
        } else {
            assert(n.nodes[k][x] == m.nodes[k][x]);
        }
    }
}

/// Every e-node of `n` was, up to canonical form, in a class of `start` that
/// belongs to its class now.
pub open spec fn stems_from<L: Language>(start: Model<L>, n: Model<L>) -> bool {
    forall|k: int, b: int|
        #![trigger n.nodes[k][b]]
        0 <= k < n.len() && 0 <= b < n.nodes[k].len() ==> stems_at(
            start,
            n.roots,
            n.nodes[k][b],
            Id(k as u32),
        )
}

/// A node of that canonical form was in a class of `start` that belongs to
/// class `k` now.
pub open spec fn stems_at<L: Language>(start: Model<L>, roots: Seq<Id>, node: L, k: Id) -> bool {
    exists|k0: int, a0: int|
        0 <= k0 < start.len() && 0 <= a0 < start.nodes[k0].len() && canon(
            roots,
            #[trigger] start.nodes[k0][a0],
        ) == canon(roots, node) && roots[k0] == k
}

/// The first id of a value.
spec fn label(vals: Seq<int>, value: int) -> Id {
    let j = choose|j: int| 0 <= j < vals.len() && vals[j] == value;
    Id(j as u32)
}

/// Values as labels.
spec fn labels_of(vals: Seq<int>) -> Seq<Id> {
    Seq::new(vals.len(), |i: int| label(vals, vals[i]))
}

proof fn lemma_labels(vals: Seq<int>, i: int, j: int)
    requires
        vals.len() <= u32::MAX + 1,
        0 <= i < vals.len(),
        0 <= j < vals.len(),
    ensures
        labels_of(vals)[i] == labels_of(vals)[j] <==> vals[i] == vals[j],
{
    let x = choose|x: int| 0 <= x < vals.len() && vals[x] == vals[i];
    let y = choose|y: int| 0 <= y < vals.len() && vals[y] == vals[j];
    assert(vals[i] == vals[i] && vals[j] == vals[j]);
    assert(0 <= x < vals.len() && vals[x] == vals[i]);
    assert(0 <= y < vals.len() && vals[y] == vals[j]);
    assert(labels_of(vals)[i] == Id(x as u32));
    assert(labels_of(vals)[j] == Id(y as u32));
}

/// Nodes of one operator whose children have the same values have one value.
proof fn lemma_values_congruent<L: Language>(
    eval: Reading<L>,
    vals: Seq<int>,
    roots: Seq<Id>,
    x: L,
    y: L,
)
    requires
        lawful::<L>(),
        by_operator(eval),
        canon(roots, x) == canon(roots, y),
        forall|i: int| #![trigger x.kids()[i]] 0 <= i < x.kids().len() ==> x.kids()[i].at() < roots.len(),
        forall|i: int| #![trigger y.kids()[i]] 0 <= i < y.kids().len() ==> y.kids()[i].at() < roots.len(),
        forall|i: int, j: int|
            #![trigger roots[i], roots[j]]
            0 <= i < roots.len() && 0 <= j < roots.len() && roots[i] == roots[j] ==> vals[i]
                == vals[j],
    ensures
        eval(x, values(vals, x.kids())) == eval(y, values(vals, y.kids())),
{
    lemma_canon_eq(roots, x, y);
    let (xs, ys) = (canon_ids(roots, x.kids()), canon_ids(roots, y.kids()));
    assert(x.kids().len() == xs.len() && y.kids().len() == ys.len());
    assert forall|i: int| 0 <= i < x.kids().len() implies values(vals, x.kids())[i] == values(
        vals,
        y.kids(),
    )[i] by {
        assert(xs[i] == ys[i]);
        assert(roots[x.kids()[i].at()] == roots[y.kids()[i].at()]);
    }
    assert(values(vals, x.kids()) =~= values(vals, y.kids()));
}

/// A reading that fits is a congruence.
proof fn lemma_labels_congruent<L: Language>(m: Model<L>, eval: Reading<L>, vals: Seq<int>)
    requires
        lawful::<L>(),
        m.shape(),
        by_operator(eval),
        models(m, eval, vals),
    ensures
        congruent(m, labels_of(vals)),
{
    reveal(models);
    let labels = labels_of(vals);
    assert forall|i: int, j: int|
        #![trigger m.roots[i], m.roots[j]]
        0 <= i < m.len() && 0 <= j < m.len() && m.roots[i] == m.roots[j] implies labels[i]
        == labels[j] by {
        lemma_labels(vals, i, j);
    }
    assert forall|i: int, j: int|
        #![trigger labels[i], labels[j]]
        0 <= i < labels.len() && 0 <= j < labels.len() && labels[i] == labels[j] implies vals[i]
        == vals[j] by {
        lemma_labels(vals, i, j);
    }
    assert forall|k: int, a: int, l: int, b: int|
        #![trigger m.nodes[k][a], m.nodes[l][b]]
        0 <= k < m.len() && 0 <= a < m.nodes[k].len() && 0 <= l < m.len() && 0 <= b
            < m.nodes[l].len() && canon(labels, m.nodes[k][a]) == canon(
            labels,
            m.nodes[l][b],
        ) implies labels[k] == labels[l] by {
        assert(m.knows(m.nodes[k][a]) && m.knows(m.nodes[l][b]));
        lemma_values_congruent(eval, vals, labels, m.nodes[k][a], m.nodes[l][b]);
        lemma_labels(vals, k, l);
    }
}

/// What congruence forces respects every reading.
pub proof fn lemma_readable_forced<L: Language>(m: Model<L>, n: Model<L>)
    requires
        lawful::<L>(),
        m.shape(),
        n.shape(),
        n.len() == m.len(),
        forced(m, n.roots),
        stems_from(m, n),
    ensures
        readable(m, n),
{
    assert forall|eval: Reading<L>, vals: Seq<int>| #[trigger]
        models(m, eval, vals) && by_operator(eval) implies carries(n, eval, vals) by {
        lemma_labels_congruent(m, eval, vals);
        reveal(models);
        let labels = labels_of(vals);
        assert(coarsens(n.roots, labels));
        assert forall|i: int, j: int|
            #![trigger n.roots[i], n.roots[j]]
            0 <= i < n.len() && 0 <= j < n.len() && n.roots[i] == n.roots[j] implies vals[i]
            == vals[j] by {
            lemma_labels(vals, i, j);
        }
        assert forall|k: int, b: int|
            #![trigger n.nodes[k][b]]
            0 <= k < n.len() && 0 <= b < n.nodes[k].len() implies eval(
            n.nodes[k][b],
            values(vals, n.nodes[k][b].kids()),
        ) == vals[k] by {
            assert(stems_at(m, n.roots, n.nodes[k][b], Id(k as u32)));
            let (k0, a0) = choose|k0: int, a0: int|
                0 <= k0 < m.len() && 0 <= a0 < m.nodes[k0].len() && canon(
                    n.roots,
                    #[trigger] m.nodes[k0][a0],
                ) == canon(n.roots, n.nodes[k][b]) && n.roots[k0] == Id(k as u32);
            assert(m.knows(m.nodes[k0][a0]) && n.knows(n.nodes[k][b]));
            lemma_values_congruent(eval, vals, n.roots, m.nodes[k0][a0], n.nodes[k][b]);
            assert(n.nodes[k].len() > 0);
            assert(n.roots[k] == Id(k as u32));
            assert(n.roots[k0] == n.roots[k]);
        }
        assert(models(n, eval, vals));
        assert(extends(vals, vals));
    }
}

/// A class that stands for a pattern has its value.
pub proof fn lemma_stands_means<L: Language>(
    m: Model<L>,
    id: Id,
    p: Pattern<L>,
    s: Bound,
    eval: Reading<L>,
    vals: Seq<int>,
)
    requires
        fixed_arity::<L>(),
        m.shape(),
        m.has(id),
        p.regular(),
        bound_in(m, s),
        by_operator(eval),
        models(m, eval, vals),
        stands_for(m, id, p, s),
    ensures
        vals[id.at()] == meaning(eval, p, env_of(vals, s)),
    decreases p,
{
    reveal(models);
    match p {
        Pattern::Var(name) => {
            assert(m.has(s[name@]));
            assert(m.roots[s[name@].at()] == m.roots[id.at()]);
            assert(env_of(vals, s).contains_key(name@));
            assert(env_of(vals, s)[name@] == vals[s[name@].at()]);
        },
        Pattern::Op { node, children } => {
            let a = choose|a: int|
                0 <= a < m.class(id).len() && #[trigger] m.class(id)[a].same_op(&node)
                    && forall|i: int|
                    #![trigger children@[i]]
                    0 <= i < children@.len() && i < m.class(id)[a].kids().len() ==> stands_for(
                        m,
                        m.class(id)[a].kids()[i],
                        children@[i],
                        s,
                    );
            let r = m.root(id).at();
            let own = m.nodes[r][a];
            assert(own == m.class(id)[a]);
            assert(m.knows(m.nodes[r][a]));
            assert(own.kids().len() == children@.len());
            let parts = meanings(eval, children@, env_of(vals, s));
            assert forall|i: int| 0 <= i < children@.len() implies values(vals, own.kids())[i]
                == parts[i] by {
                assert(children@[i].regular());
                assert(m.has(own.kids()[i]));
                lemma_stands_means(m, own.kids()[i], children@[i], s, eval, vals);
            }
            assert(values(vals, own.kids()) =~= parts);
            assert(eval(own, parts) == vals[r]);
            assert(eval(own, parts) == eval(node, parts));
            assert(m.roots[r] == m.roots[id.at()]);
            assert(vals[r] == vals[id.at()]);
        },
    }
}

/// Values for more ids leave bound variables as they were.
pub proof fn lemma_env_extends<L: Language>(m: Model<L>, s: Bound, vals: Seq<int>, more: Seq<int>)
    requires
        bound_in(m, s),
        vals.len() == m.len(),
        extends(vals, more),
    ensures
        env_of(more, s) == env_of(vals, s),
{
    assert forall|name: Seq<char>| s.contains_key(name) implies env_of(more, s)[name] == env_of(
        vals,
        s,
    )[name] by {
        assert(m.has(s[name]));
        assert(more[s[name].at()] == vals[s[name].at()]);
    }
    assert(env_of(more, s) =~= env_of(vals, s));
}

/// Both sides have one value still when there are values for more ids.
pub proof fn lemma_agrees_extends<L: Language, N: ClassData>(
    m: Model<L>,
    eval: Reading<L>,
    rule: Rewrite<L, N>,
    vals: Seq<int>,
    more: Seq<int>,
    s: Bound,
)
    requires
        bound_in(m, s),
        vals.len() == m.len(),
        extends(vals, more),
        agrees(eval, rule, vals, s),
    ensures
        agrees(eval, rule, more, s),
{
    lemma_env_extends(m, s, vals, more);
    assert forall|now: Seq<int>| #[trigger] extends(more, now) implies extends(vals, now) by {
        assert forall|i: int|
            #![trigger now[i]]
            #![trigger vals[i]]
            0 <= i < vals.len() implies now[i] == vals[i] by {
            assert(more[i] == vals[i]);
        }
    }
}

/// How many values there are.
pub proof fn lemma_models_len<L: Language>(m: Model<L>, eval: Reading<L>, vals: Seq<int>)
    requires
        models(m, eval, vals),
    ensures
        vals.len() == m.len(),
{
    reveal(models);
}

/// Equality saturation is sound: ids that a run made equal have one value under
/// every reading that fitted the graph before, makes the rules hold and is
/// respected by the analysis.
pub proof fn law_run_is_sound<L: Language, N: Analysis<L>>(
    old: &EGraph<L, N>,
    new: &EGraph<L, N>,
    rules: Seq<Rewrite<L, N>>,
    eval: Reading<L>,
    vals: Seq<int>,
    a: Id,
    b: Id,
)
    requires
        respected(old.model(), new.model(), rules),
        by_operator(eval),
        all_hold(eval, rules),
        analysis_holds::<L, N>(eval),
        models(old.model(), eval, vals),
        old.model().has(a),
        old.model().has(b),
        old.model().len() <= new.model().len(),
        new.model().root(a) == new.model().root(b),
    ensures
        vals[a.at()] == vals[b.at()],
{
    reveal(models);
    let (m, n) = (old.model(), new.model());
    assert(carries(n, eval, vals));
    let more = choose|more: Seq<int>| #[trigger] models(n, eval, more) && extends(vals, more);
    assert(n.roots[a.at()] == n.roots[b.at()]);
    assert(more[a.at()] == more[b.at()]);
}

/// The value of an expression.
pub open spec fn expr_value<L: Language>(eval: Reading<L>, expr: Expr<L>) -> int
    decreases expr, 1nat,
{
    eval(expr.node, part_values(eval, expr))
}

/// The values of the children of an expression.
pub open spec fn part_values<L: Language>(eval: Reading<L>, expr: Expr<L>) -> Seq<int>
    decreases expr, 0nat,
{
    Seq::new(
        expr.children@.len(),
        |i: int|
            if 0 <= i < expr.children@.len() {
                expr_value(eval, expr.children@[i])
            } else {
                0
            },
    )
}

/// Every term of a class, and with that the extracted one, has the value of the
/// class, under every reading that fits the graph.
pub proof fn law_terms_have_class_value<L: Language>(
    m: Model<L>,
    id: Id,
    expr: Expr<L>,
    eval: Reading<L>,
    vals: Seq<int>,
)
    requires
        m.shape(),
        models(m, eval, vals),
        represents(m, id, expr),
    ensures
        expr_value(eval, expr) == vals[id.at()],
    decreases expr,
{
    reveal(models);
    let r = m.root(id).at();
    let nodes = m.class(id);
    let a = choose|a: int| 0 <= a < nodes.len() && nodes[a] == expr.node;
    assert(m.nodes[r][a] == expr.node);
    assert(m.knows(m.nodes[r][a]));
    let kids = expr.node.kids();
    assert forall|i: int| 0 <= i < kids.len() implies values(vals, kids)[i] == part_values(
        eval,
        expr,
    )[i] by {
        assert(represents(m, kids[i], expr.children@[i]));
        law_terms_have_class_value(m, kids[i], expr.children@[i], eval, vals);
    }
    assert(values(vals, kids) =~= part_values(eval, expr));
    assert(m.roots[r] == m.roots[id.at()]);
}

/// The e-node that a node applier gets is one of the matched class: where the
/// left-hand side is an operator pattern, one with that operator whose children
/// stand for the sub-patterns under the bindings, else the first one.
pub proof fn law_handed_node<L: Language, N: ClassData>(
    m: Model<L>,
    rule: Rewrite<L, N>,
    id: Id,
    s: Bound,
    node: L,
    i: int,
)
    requires
        is_handed(m, rule, id, s, node),
    ensures
        rule.lhs is Dynamic ==> node == m.nodes[m.roots[id.at()].at()][0],
        rule.lhs is Pattern && rule.lhs->Pattern_0 is Op ==> {
            let p = rule.lhs->Pattern_0;
            &&& node.same_op(&p->node)
            &&& exists|a: int|
                #![trigger m.class(id)[a]]
                0 <= a < m.class(id).len() && canon(m.roots, m.class(id)[a]) == canon(m.roots, node)
            &&& !p.uses("$lhs"@) && 0 <= i < p->children@.len() && i < node.kids().len()
                ==> stands_for(m, node.kids()[i], p->children@[i], s)
        },
{
    if rule.lhs is Pattern && rule.lhs->Pattern_0 is Op {
        assert(holds_node(m.roots, m.class(id), canon(m.roots, node)));
        let nodes = m.class(id);
        let a = choose|a: int|
            0 <= a < nodes.len() && canon(m.roots, #[trigger] nodes[a]) == canon(m.roots, node);
        assert(m.class(id)[a] == nodes[a]);
    }
}

} // verus!
