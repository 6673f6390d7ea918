//! What the cost models measure.

use super::cost::{largest, total, AstDepth, AstSize, CostFunction, LanguageCost};
use super::extract::{cost_of, part_costs, Expr};
use super::lang::Language;
use super::readers::capped;
use vstd::prelude::*;

verus! {

/// `path` leads from the top of `expr` down to one of its nodes: it says at
/// every node on the way which child comes next.
pub open spec fn is_path<L: Language>(expr: Expr<L>, path: Seq<int>) -> bool
    decreases path.len(),
{
    path.len() > 0 ==> 0 <= path[0] < expr.children@.len() && is_path(
        expr.children@[path[0]],
        path.drop_first(),
    )
}

/// The largest number is one of them, and no other is larger.
proof fn lemma_largest(parts: Seq<usize>)
    ensures
        forall|j: int| #![trigger parts[j]] 0 <= j < parts.len() ==> parts[j] <= largest(parts),
        parts.len() > 0 ==> exists|j: int|
            0 <= j < parts.len() && #[trigger] parts[j] == largest(parts),
        parts.len() == 0 ==> largest(parts) == 0,
    decreases parts.len(),
{
    if parts.len() > 0 {
        let less = parts.drop_last();
        lemma_largest(less);
        assert forall|j: int| #![trigger parts[j]] 0 <= j < parts.len() implies parts[j] <= largest(
            parts,
        ) by {
            if j < less.len() {
                assert(less[j] == parts[j]);
            }
        }
        if parts.last() > largest(less) {
            assert(parts[parts.len() - 1] == largest(parts));
        } else if less.len() > 0 {
            let j = choose|j: int| 0 <= j < less.len() && #[trigger] less[j] == largest(less);
            assert(parts[j] == largest(parts));
        } else {
            assert(parts[parts.len() - 1] == largest(parts));
        }
    }
}

/// By depth a node costs one more than its dearest child, and one where it has
/// no child.
pub proof fn law_ast_depth_price<L: Language>(node: L, parts: Seq<usize>, bound: usize)
    ensures
        parts.len() == 0 ==> CostFunction::<L>::price(&AstDepth, node, parts) == 1,
        parts.len() > 0 ==> exists|j: int|
            0 <= j < parts.len() && CostFunction::<L>::price(&AstDepth, node, parts) == if (
            #[trigger] parts[j]) < usize::MAX {
                (parts[j] + 1) as usize
            } else {
                usize::MAX
            },
        bound < usize::MAX && (forall|j: int|
            #![trigger parts[j]]
            0 <= j < parts.len() ==> parts[j] <= bound) ==> CostFunction::<L>::price(
            &AstDepth,
            node,
            parts,
        ) <= bound + 1,
        forall|j: int|
            #![trigger parts[j]]
            0 <= j < parts.len() && parts[j] < usize::MAX ==> parts[j] < CostFunction::<L>::price(
                &AstDepth,
                node,
                parts,
            ),
{
    lemma_largest(parts);
    if parts.len() > 0 {
        let j = choose|j: int| 0 <= j < parts.len() && #[trigger] parts[j] == largest(parts);
        assert(parts[j] == largest(parts));
    }
}

/// The depth of a term is the number of nodes on its longest path from the top
/// down: every path has at most that many nodes, and one has exactly that many.
/// Counting stops at the largest `usize`.
pub proof fn law_ast_depth_is_longest_path<L: Language>(expr: Expr<L>)
    ensures
        forall|path: Seq<int>| #[trigger]
            is_path(expr, path) ==> path.len() + 1 <= cost_of(&AstDepth, expr) || cost_of(
                &AstDepth,
                expr,
            ) == usize::MAX,
        exists|path: Seq<int>| #[trigger]
            is_path(expr, path) && cost_of(&AstDepth, expr) <= path.len() + 1,
    decreases expr,
{
    let kids = expr.children@;
    let parts = part_costs(&AstDepth, expr);
    let cost = cost_of(&AstDepth, expr);
    lemma_largest(parts);
    assert forall|path: Seq<int>| #[trigger] is_path(expr, path) implies path.len() + 1 <= cost
        || cost == usize::MAX by {
        if path.len() > 0 {
            let j = path[0];
            law_ast_depth_is_longest_path(kids[j]);
            assert(is_path(kids[j], path.drop_first()));
            assert(parts[j] == cost_of(&AstDepth, kids[j]));
        }
    }
    if kids.len() == 0 {
        assert(is_path(expr, Seq::<int>::empty()));
    } else {
        let j = choose|j: int| 0 <= j < parts.len() && #[trigger] parts[j] == largest(parts);
        law_ast_depth_is_longest_path(kids[j]);
        let rest = choose|path: Seq<int>| #[trigger]
            is_path(kids[j], path) && cost_of(&AstDepth, kids[j]) <= path.len() + 1;
        let path = seq![j] + rest;
        assert(path.drop_first() =~= rest);
        assert(is_path(expr, path));
        assert(parts[j] == cost_of(&AstDepth, kids[j]));
    }
}

/// `list` holds all paths of `expr` that start with one of the first `n`
/// children, none of them twice.
spec fn lists_below<L: Language>(expr: Expr<L>, n: int, list: Seq<Seq<int>>) -> bool {
    &&& list.no_duplicates()
    &&& forall|path: Seq<int>| #[trigger]
        list.contains(path) <==> path.len() > 0 && path[0] < n && is_path(expr, path)
}

/// `list` holds all paths of `expr`, none of them twice.
spec fn lists_all<L: Language>(expr: Expr<L>, list: Seq<Seq<int>>) -> bool {
    &&& list.no_duplicates()
    &&& forall|path: Seq<int>| #[trigger] list.contains(path) <==> is_path(expr, path)
}

/// The paths of a child, each one step longer.
proof fn lemma_one_child<L: Language>(expr: Expr<L>, j: int, inner: Seq<Seq<int>>) -> (list: Seq<
    Seq<int>,
>)
    requires
        0 <= j < expr.children@.len(),
        lists_all(expr.children@[j], inner),
    ensures
        list.len() == inner.len(),
        list.no_duplicates(),
        forall|path: Seq<int>| #[trigger]
            list.contains(path) <==> path.len() > 0 && path[0] == j && is_path(expr, path),
{
    let list = Seq::new(inner.len(), |i: int| seq![j] + inner[i]);
    assert forall|a: int, b: int| 0 <= a < list.len() && 0 <= b < list.len() && a != b implies list[a]
        != list[b] by {
        assert(list[a].drop_first() =~= inner[a]);
        assert(list[b].drop_first() =~= inner[b]);
    }
    assert forall|path: Seq<int>| #[trigger]
        list.contains(path) <==> path.len() > 0 && path[0] == j && is_path(expr, path) by {
        if list.contains(path) {
            let i = choose|i: int| 0 <= i < list.len() && list[i] == path;
            assert(path.drop_first() =~= inner[i]);
            assert(inner.contains(inner[i]));
        }
        if path.len() > 0 && path[0] == j && is_path(expr, path) {
            let rest = path.drop_first();
            assert(inner.contains(rest));
            let i = choose|i: int| 0 <= i < inner.len() && inner[i] == rest;
            assert(path =~= seq![j] + rest);
            assert(list[i] == path);
        }
    }
    list
}

/// All paths that start with one of the first `n` children, as many as the
/// children cost.
proof fn lemma_paths_below<L: Language>(expr: Expr<L>, n: nat) -> (list: Seq<Seq<int>>)
    requires
        n <= expr.children@.len(),
    ensures
        lists_below(expr, n as int, list),
        capped(total(part_costs(&AstSize, expr).take(n as int))) == capped(list.len()),
    decreases expr, 0nat, n,
{
    let parts = part_costs(&AstSize, expr);
    if n == 0 {
        assert(parts.take(0).len() == 0);
        let list = Seq::<Seq<int>>::empty();
        assert forall|path: Seq<int>| #[trigger]
            list.contains(path) <==> path.len() > 0 && path[0] < n && is_path(expr, path) by {}
        list
    } else {
        let less = (n - 1) as nat;
        let j = n - 1;
        let some = lemma_paths_below(expr, less);
        let inner = lemma_all_paths(expr.children@[j]);
        let more = lemma_one_child(expr, j, inner);
        let list = some + more;
        assert(parts.take(n as int).drop_last() =~= parts.take(less as int));
        assert(parts.take(n as int).last() == parts[j]);
        assert(parts[j] == cost_of(&AstSize, expr.children@[j]));
        assert forall|a: int, b: int|
            0 <= a < list.len() && 0 <= b < list.len() && a != b implies list[a] != list[b] by {
            let (x, y) = (if a < b { a } else { b }, if a < b { b } else { a });
            if x < some.len() && y >= some.len() {
                assert(list[x] == some[x] && list[y] == more[y - some.len()]);
                assert(some.contains(some[x]));
                assert(more.contains(more[y - some.len()]));
            } else if x >= some.len() {
                assert(more[x - some.len()] != more[y - some.len()]);
            } else {
                assert(some[x] != some[y]);
            }
        }
        assert forall|path: Seq<int>| #[trigger]
            list.contains(path) <==> path.len() > 0 && path[0] < n && is_path(expr, path) by {
            if list.contains(path) {
                let i = choose|i: int| 0 <= i < list.len() && list[i] == path;
                if i < some.len() {
                    assert(some.contains(some[i]));
                } else {
                    assert(more.contains(more[i - some.len()]));
                }
            }
            if path.len() > 0 && path[0] < n && is_path(expr, path) {
                if path[0] < less {
                    assert(some.contains(path));
                    let i = choose|i: int| 0 <= i < some.len() && some[i] == path;
                    assert(list[i] == path);
                } else {
                    assert(more.contains(path));
                    let i = choose|i: int| 0 <= i < more.len() && more[i] == path;
                    assert(list[some.len() + i] == path);
                }
            }
        }
        list
    }
}

/// All paths of a term, as many as it costs.
proof fn lemma_all_paths<L: Language>(expr: Expr<L>) -> (list: Seq<Seq<int>>)
    ensures
        lists_all(expr, list),
        cost_of(&AstSize, expr) == capped(list.len()),
    decreases expr, 1nat, 0nat,
{
    let n = expr.children@.len();
    let parts = part_costs(&AstSize, expr);
    let below = lemma_paths_below(expr, n);
    assert(parts.take(n as int) =~= parts);
    let list = below.push(Seq::empty());
    assert forall|a: int, b: int| 0 <= a < list.len() && 0 <= b < list.len() && a != b implies list[a]
        != list[b] by {
        if a < below.len() {
            assert(below.contains(below[a]));
        }
        if b < below.len() {
            assert(below.contains(below[b]));
        }
    }
    assert forall|path: Seq<int>| #[trigger] list.contains(path) <==> is_path(expr, path) by {
        if list.contains(path) {
            let i = choose|i: int| 0 <= i < list.len() && list[i] == path;
            if i < below.len() {
                assert(below.contains(below[i]));
            }
        }
        if is_path(expr, path) {
            if path.len() == 0 {
                assert(path =~= Seq::empty());
                assert(list[below.len() as int] == path);
            } else {
                assert(below.contains(path));
                let i = choose|i: int| 0 <= i < below.len() && below[i] == path;
                assert(list[i] == path);
            }
        }
    }
    list
}

/// The size of a term is the number of its nodes: there are as many paths from
/// its top to a node. Counting stops at the largest `usize`.
pub proof fn law_ast_size_is_node_count<L: Language>(expr: Expr<L>)
    ensures
        Set::new(|path: Seq<int>| is_path(expr, path)).finite(),
        Set::new(|path: Seq<int>| is_path(expr, path)).len() < usize::MAX ==> cost_of(
            &AstSize,
            expr,
        ) == Set::new(|path: Seq<int>| is_path(expr, path)).len(),
        Set::new(|path: Seq<int>| is_path(expr, path)).len() >= usize::MAX ==> cost_of(
            &AstSize,
            expr,
        ) == usize::MAX,
{
    let list = lemma_all_paths(expr);
    list.unique_seq_to_set();
    vstd::seq_lib::seq_to_set_is_finite(list);
    assert(list.to_set() =~= Set::new(|path: Seq<int>| is_path(expr, path)));
}

proof fn lemma_total_update(parts: Seq<usize>, j: int, part: usize)
    requires
        0 <= j < parts.len(),
    ensures
        total(parts.update(j, part)) == total(parts) - parts[j] + part,
    decreases parts.len(),
{
    let next = parts.update(j, part);
    if j == parts.len() - 1 {
        assert(next.drop_last() =~= parts.drop_last());
    } else {
        lemma_total_update(parts.drop_last(), j, part);
        assert(next.drop_last() =~= parts.drop_last().update(j, part));
    }
}

proof fn lemma_total_zero(parts: Seq<usize>)
    requires
        forall|j: int| #![trigger parts[j]] 0 <= j < parts.len() ==> parts[j] == 0,
    ensures
        total(parts) == 0,
    decreases parts.len(),
{
    if parts.len() > 0 {
        assert forall|j: int|
            #![trigger parts.drop_last()[j]]
            0 <= j < parts.drop_last().len() implies parts.drop_last()[j] == 0 by {
            assert(parts[j] == 0);
        }
        lemma_total_zero(parts.drop_last());
        assert(parts[parts.len() - 1] == 0);
    }
}

/// By size a node costs one over children that cost nothing, and with every
/// child it costs as much more as the child does: where the cost of one child
/// changes, that of the node changes by the same amount, up to the largest
/// `usize`.
pub proof fn law_ast_size_adds_up<L: Language>(node: L, parts: Seq<usize>, j: int, part: usize)
    requires
        0 <= j < parts.len(),
    ensures
        ({
            let (was, now) = (
                CostFunction::<L>::price(&AstSize, node, parts),
                CostFunction::<L>::price(&AstSize, node, parts.update(j, part)),
            );
            &&& was < usize::MAX && was - parts[j] + part <= usize::MAX ==> now == was - parts[j]
                + part
            &&& was - parts[j] + part > usize::MAX ==> now == usize::MAX
            &&& was == usize::MAX && part >= parts[j] ==> now == usize::MAX
            &&& (forall|i: int| #![trigger parts[i]] 0 <= i < parts.len() ==> parts[i] == 0) ==> was
                == 1
        }),
        CostFunction::<L>::price(&AstSize, node, Seq::<usize>::empty()) == 1,
{
    lemma_total_update(parts, j, part);
    if forall|i: int| #![trigger parts[i]] 0 <= i < parts.len() ==> parts[i] == 0 {
        lemma_total_zero(parts);
    }
}

/// By weight a node costs its own weight over children that cost nothing, and
/// with every child it costs as much more as the child does: where the cost of
/// one child changes, that of the node changes by the same amount, up to the
/// largest `usize`.
pub proof fn law_language_cost_adds_up<L: Language>(
    node: L,
    parts: Seq<usize>,
    j: int,
    part: usize,
)
    requires
        0 <= j < parts.len(),
    ensures
        ({
            let (was, now) = (
                CostFunction::<L>::price(&LanguageCost, node, parts),
                CostFunction::<L>::price(&LanguageCost, node, parts.update(j, part)),
            );
            &&& was < usize::MAX && was - parts[j] + part <= usize::MAX ==> now == was - parts[j]
                + part
            &&& was - parts[j] + part > usize::MAX ==> now == usize::MAX
            &&& was == usize::MAX && part >= parts[j] ==> now == usize::MAX
            &&& (forall|i: int| #![trigger parts[i]] 0 <= i < parts.len() ==> parts[i] == 0) ==> was
                == node.weight()
        }),
        CostFunction::<L>::price(&LanguageCost, node, Seq::<usize>::empty()) == node.weight(),
{
    lemma_total_update(parts, j, part);
    if forall|i: int| #![trigger parts[i]] 0 <= i < parts.len() ==> parts[i] == 0 {
        lemma_total_zero(parts);
    }
}

} // verus!
