//! Extraction: pick the lowest-cost term from an e-class.

use super::cost::{cheaper, sound_costs, well_ordered, CostFunction};
use super::lang::{copy_node, lawful, texts, Id, Language};
use super::model::{has_older, older_kids, Model};
use super::sums::{lemma_tally, tally};
use super::{ClassData, EGraph};
use std::cmp::Ordering;
use std::collections::hash_map::DefaultHasher;
use std::collections::HashSet;
use std::hash::Hasher;
use vstd::prelude::*;
use vstd::std_specs::cmp::PartialOrdSpec;

verus! {

/// A concrete extracted expression tree (for display).
#[verifier::reject_recursive_types(L)]
pub struct Expr<L: Language> {
    pub node: L,
    pub children: Vec<Expr<L>>,
}

impl<L: Language> Expr<L> {
    /// The texts of the children of this expression.
    pub open spec fn part_texts(&self) -> Seq<Seq<char>>
        decreases self, 0nat,
    {
        Seq::new(
            self.children@.len(),
            |i: int|
                if 0 <= i < self.children@.len() {
                    self.children@[i].text()
                } else {
                    Seq::empty()
                },
        )
    }

    /// The text of this expression.
    pub open spec fn text(&self) -> Seq<char>
        decreases self, 1nat,
    {
        self.node.rendered(self.part_texts())
    }

    /// Render this expression.
    pub fn to_string(&self) -> (text: String)
        ensures
            text@ == self.text(),
        decreases self,
    {
        let mut kids: Vec<String> = Vec::new();
        let mut i: usize = 0;
        while i < self.children.len()
            invariant
                i <= self.children.len(),
                kids@.len() == i,
                forall|j: int|
                    #![trigger kids@[j]]
                    0 <= j < i ==> kids@[j]@ == self.children@[j].text(),
            decreases self.children.len() - i,
        {
            assert(decreases_to!(self => self.children@[i as int]));
            let kid = self.children[i].to_string();
            kids.push(kid);
            i = i + 1;
        }
        assert(texts(kids@) =~= self.part_texts());
        self.node.display(kids.as_slice())
    }
}

/// `expr` is a term of the class of `id`: its node is one of the class, and
/// its children are terms of the node's child classes.
pub open spec fn represents<L: Language>(m: Model<L>, id: Id, expr: Expr<L>) -> bool
    decreases expr,
{
    &&& m.has(id)
    &&& m.class(id).contains(expr.node)
    &&& expr.children@.len() == expr.node.kids().len()
    &&& forall|j: int|
        #![trigger expr.children@[j]]
        0 <= j < expr.children@.len() ==> represents(m, expr.node.kids()[j], expr.children@[j])
}

/// The costs of the children of `expr`.
pub open spec fn part_costs<L: Language, CF: CostFunction<L>>(cf: &CF, expr: Expr<L>) -> Seq<
    CF::Cost,
>
    decreases expr, 0nat,
{
    Seq::new(
        expr.children@.len(),
        |j: int|
            if 0 <= j < expr.children@.len() {
                cost_of(cf, expr.children@[j])
            } else {
                arbitrary()
            },
    )
}

/// The cost of `expr`.
pub open spec fn cost_of<L: Language, CF: CostFunction<L>>(cf: &CF, expr: Expr<L>) -> CF::Cost
    decreases expr, 1nat,
{
    cf.price(expr.node, part_costs(cf, expr))
}

/// Of all terms of the class of `id`, `expr` is a cheapest one.
pub open spec fn cheapest<L: Language, CF: CostFunction<L>>(
    m: Model<L>,
    cf: &CF,
    id: Id,
    expr: Expr<L>,
) -> bool {
    &&& represents(m, id, expr)
    &&& forall|other: Expr<L>| #[trigger]
        represents(m, id, other) ==> CF::rank(cost_of(cf, expr)) <= CF::rank(cost_of(cf, other))
}

/// The node at `a` of the class of `id` has a number in the table that is at most
/// that of every node that starts an equally cheap term as `expr`.
pub open spec fn first_in_row<L: Language, CF: CostFunction<L>>(
    m: Model<L>,
    cf: &CF,
    rows: Seq<Seq<u64>>,
    id: Id,
    expr: Expr<L>,
    a: int,
) -> bool {
    let row = rows[m.root(id).at()];
    &&& 0 <= a < m.class(id).len() && m.class(id)[a] == expr.node
    &&& forall|b: int, other: Expr<L>|
        #![trigger row[b], represents(m, id, other)]
        0 <= b < m.class(id).len() && m.class(id)[b] == other.node && represents(m, id, other)
            && CF::rank(cost_of(cf, other)) == CF::rank(cost_of(cf, expr)) ==> row[a] <= row[b]
}

/// `expr` is a cheapest term of the class of `id`, of the equally cheap ones it
/// is one whose node has the smallest number in the table, and its children are
/// chosen in the same way.
pub open spec fn chosen<L: Language, CF: CostFunction<L>>(
    m: Model<L>,
    cf: &CF,
    rows: Seq<Seq<u64>>,
    id: Id,
    expr: Expr<L>,
) -> bool
    decreases expr,
{
    &&& cheapest(m, cf, id, expr)
    &&& exists|a: int| #[trigger] first_in_row(m, cf, rows, id, expr, a)
    &&& forall|j: int|
        #![trigger expr.children@[j]]
        0 <= j < expr.children@.len() ==> chosen(
            m,
            cf,
            rows,
            expr.node.kids()[j],
            expr.children@[j],
        )
}

/// Under a well-ordered cost model, `expr` is chosen, unless its cost is the
/// largest there is.
pub open spec fn extracted<L: Language, CF: CostFunction<L>>(
    m: Model<L>,
    cf: &CF,
    rows: Seq<Seq<u64>>,
    id: Id,
    expr: Expr<L>,
) -> bool {
    forall|top: nat| #[trigger]
        well_ordered::<L, CF>(cf, top) && CF::rank(cost_of(cf, expr)) < top ==> chosen(
            m,
            cf,
            rows,
            id,
            expr,
        )
}

/// No two e-nodes of one class have the same number.
pub open spec fn no_ties(rows: Seq<Seq<u64>>) -> bool {
    forall|k: int, a: int, b: int|
        #![trigger rows[k][a], rows[k][b]]
        0 <= k < rows.len() && 0 <= a < rows[k].len() && 0 <= b < rows[k].len() && rows[k][a]
            == rows[k][b] ==> a == b
}

/// Extraction is determined by the classes, the cost model and the hashes: where
/// no two e-nodes of one class have the same hash, all terms that can be chosen
/// have one text.
pub proof fn law_extraction_is_determined<L: Language, CF: CostFunction<L>>(
    m: Model<L>,
    cf: &CF,
    rows: Seq<Seq<u64>>,
    id: Id,
    one: Expr<L>,
    two: Expr<L>,
)
    requires
        m.shape(),
        tabled(m, rows),
        no_ties(rows),
        chosen(m, cf, rows, id, one),
        chosen(m, cf, rows, id, two),
    ensures
        one.text() == two.text(),
    decreases one,
{
    let k = m.root(id).at();
    let row = rows[k];
    let a = choose|a: int| #[trigger] first_in_row(m, cf, rows, id, one, a);
    let b = choose|b: int| #[trigger] first_in_row(m, cf, rows, id, two, b);
    assert(m.roots[id.at()].at() < m.len());
    assert(rows[k].len() == m.nodes[k].len());
    assert(CF::rank(cost_of(cf, one)) == CF::rank(cost_of(cf, two)));
    assert(row[a] <= row[b]);
    assert(row[b] <= row[a]);
    assert(rows[k][a] == rows[k][b]);
    assert(one.node == two.node);
    assert forall|j: int| 0 <= j < one.children@.len() implies one.part_texts()[j]
        == two.part_texts()[j] by {
        let kid = one.node.kids()[j];
        assert(chosen(m, cf, rows, kid, one.children@[j]));
        assert(chosen(m, cf, rows, kid, two.children@[j]));
        law_extraction_is_determined(m, cf, rows, kid, one.children@[j], two.children@[j]);
    }
    assert(one.part_texts() =~= two.part_texts());
}

/// Among the terms of a class that cost no more than what was extracted, none
/// starts with an e-node of a smaller hash.
pub proof fn law_smallest_hash_wins<L: Language, CF: CostFunction<L>>(
    m: Model<L>,
    cf: &CF,
    rows: Seq<Seq<u64>>,
    id: Id,
    expr: Expr<L>,
    top: nat,
    other: Expr<L>,
)
    requires
        extracted(m, cf, rows, id, expr),
        well_ordered::<L, CF>(cf, top),
        CF::rank(cost_of(cf, expr)) < top,
        represents(m, id, other),
        CF::rank(cost_of(cf, other)) <= CF::rank(cost_of(cf, expr)),
    ensures
        CF::rank(cost_of(cf, other)) == CF::rank(cost_of(cf, expr)),
        exists|a: int|
            #![trigger m.class(id)[a]]
            {
                &&& 0 <= a < m.class(id).len() && m.class(id)[a] == expr.node
                &&& forall|b: int|
                    #![trigger m.class(id)[b]]
                    0 <= b < m.class(id).len() && m.class(id)[b] == other.node ==> rows[m.root(
                        id,
                    ).at()][a] <= rows[m.root(id).at()][b]
            },
{
    assert(chosen(m, cf, rows, id, expr));
    let a = choose|a: int| #[trigger] first_in_row(m, cf, rows, id, expr, a);
    assert(m.class(id)[a] == expr.node);
}

/// The parts of what was extracted are cheapest terms of their own classes, so no
/// part can be exchanged for a cheaper one.
pub proof fn law_parts_are_cheapest<L: Language, CF: CostFunction<L>>(
    m: Model<L>,
    cf: &CF,
    rows: Seq<Seq<u64>>,
    id: Id,
    expr: Expr<L>,
    top: nat,
    j: int,
    other: Expr<L>,
)
    requires
        extracted(m, cf, rows, id, expr),
        well_ordered::<L, CF>(cf, top),
        CF::rank(cost_of(cf, expr)) < top,
        0 <= j < expr.children@.len(),
        represents(m, expr.node.kids()[j], other),
    ensures
        CF::rank(cost_of(cf, expr.children@[j])) <= CF::rank(cost_of(cf, other)),
{
    assert(chosen(m, cf, rows, id, expr));
    assert(chosen(m, cf, rows, expr.node.kids()[j], expr.children@[j]));
}

/// A pick is replaced by a cheaper one whatever the hashes are, by an equally
/// cheap one just if its hash is smaller, and by no other.
pub proof fn law_cheaper_pick_wins<C: PartialOrd>(cost: C, hash: u64, current: C, current_hash: u64)
    ensures
        cost.partial_cmp_spec(&current) == Some(Ordering::Less) ==> beats(
            cost,
            hash,
            current,
            current_hash,
        ),
        cost.partial_cmp_spec(&current) == Some(Ordering::Equal) ==> (beats(
            cost,
            hash,
            current,
            current_hash,
        ) <==> hash < current_hash),
        cost.partial_cmp_spec(&current) == Some(Ordering::Greater) || cost.partial_cmp_spec(&current)
            == None::<Ordering> ==> !beats(cost, hash, current, current_hash),
{
}

/// The best node known for a class so far.
struct Pick<C, L> {
    cost: C,
    node: L,
    hash: u64,
}

/// Feeds a node to a hasher with `std::hash::Hash::hash`. What is written to
/// the hasher is up to the `Hash` impl of the language: nothing is said of it.
#[verifier::external_body]
fn feed<L: Language>(node: &L, hasher: &mut DefaultHasher) {
    node.hash(hasher);
}

/// A deterministic hash of a node, used to break equal-cost ties in
/// extraction. No contract speaks of its value: any hash will do.
fn stable_hash<L: Language>(node: &L) -> u64 {
    let mut hasher = DefaultHasher::new();
    feed(node, &mut hasher);
    hasher.finish()
}

/// A node of cost `cost` replaces the current pick: it is cheaper, or equally
/// cheap with a smaller hash.
pub open spec fn beats<C: PartialOrd>(cost: C, hash: u64, current: C, current_hash: u64) -> bool {
    match cost.partial_cmp_spec(&current) {
        Some(Ordering::Less) => true,
        Some(Ordering::Equal) => hash < current_hash,
        _ => false,
    }
}

/// Whether a node replaces the current pick.
pub fn improves<C: PartialOrd>(cost: &C, hash: u64, current: &C, current_hash: u64) -> (better: bool)
    requires
        C::obeys_partial_cmp_spec(),
    ensures
        better == beats(*cost, hash, *current, current_hash),
{
    match cost.partial_cmp(current) {
        Some(Ordering::Less) => true,
        Some(Ordering::Equal) => hash < current_hash,
        _ => false,
    }
}

/// All children of `node` have a pick.
spec fn ready<L: Language, C>(m: Model<L>, best: Seq<Option<Pick<C, L>>>, node: L) -> bool {
    forall|j: int|
        #![trigger node.kids()[j]]
        0 <= j < node.kids().len() ==> best[m.root(node.kids()[j]).at()] is Some
}

/// The best costs of the children of `node`.
spec fn kid_costs<L: Language, C>(
    m: Model<L>,
    best: Seq<Option<Pick<C, L>>>,
    node: L,
) -> Seq<C> {
    Seq::new(node.kids().len(), |j: int| best[m.root(node.kids()[j]).at()]->0.cost)
}

/// Every pick is a node of its class whose children have picks.
spec fn valid<L: Language, C>(m: Model<L>, best: Seq<Option<Pick<C, L>>>) -> bool {
    &&& best.len() == m.len()
    &&& forall|i: int|
        #![trigger best[i]]
        0 <= i < best.len() && best[i] is Some ==> m.roots[i] == Id(i as u32)
            && m.nodes[i].contains(best[i]->0.node) && ready(m, best, best[i]->0.node)
}

/// The numbers in a table, row by row.
pub open spec fn rows_of(hashes: Seq<Vec<u64>>) -> Seq<Seq<u64>> {
    Seq::new(hashes.len(), |i: int| hashes[i]@)
}

/// The table has a number for every e-node of every class.
pub open spec fn tabled<L: Language>(m: Model<L>, rows: Seq<Seq<u64>>) -> bool {
    &&& rows.len() == m.nodes.len()
    &&& forall|i: int|
        #![trigger rows[i]]
        0 <= i < rows.len() ==> rows[i].len() == m.nodes[i].len()
}

/// `node` is in class `i`, where the table has `hash` for it.
spec fn has_mark<L: Language>(
    m: Model<L>,
    rows: Seq<Seq<u64>>,
    i: int,
    node: L,
    hash: u64,
) -> bool {
    exists|a: int|
        #![trigger m.nodes[i][a]]
        0 <= a < m.nodes[i].len() && m.nodes[i][a] == node && rows[i][a] == hash
}

/// Every pick has its number from the table.
spec fn marked<L: Language, C>(
    m: Model<L>,
    rows: Seq<Seq<u64>>,
    best: Seq<Option<Pick<C, L>>>,
) -> bool {
    forall|i: int|
        #![trigger best[i]]
        0 <= i < best.len() && best[i] is Some ==> has_mark(
            m,
            rows,
            i,
            best[i]->0.node,
            best[i]->0.hash,
        )
}

/// Every pick costs at least what its node costs over the best children.
spec fn bounded<L: Language, CF: CostFunction<L>>(
    m: Model<L>,
    cf: &CF,
    best: Seq<Option<Pick<CF::Cost, L>>>,
) -> bool {
    forall|i: int|
        #![trigger best[i]]
        0 <= i < best.len() && best[i] is Some ==> CF::rank(
            cf.price(best[i]->0.node, kid_costs(m, best, best[i]->0.node)),
        ) <= CF::rank(best[i]->0.cost)
}

/// A node whose children have picks does not beat the pick of its class.
spec fn settled_at<L: Language, CF: CostFunction<L>>(
    m: Model<L>,
    cf: &CF,
    rows: Seq<Seq<u64>>,
    best: Seq<Option<Pick<CF::Cost, L>>>,
    i: int,
    a: int,
) -> bool {
    ready(m, best, m.nodes[i][a]) ==> best[i] is Some && !beats(
        cf.price(m.nodes[i][a], kid_costs(m, best, m.nodes[i][a])),
        rows[i][a],
        best[i]->0.cost,
        best[i]->0.hash,
    )
}

/// No pick can be improved.
spec fn stable<L: Language, CF: CostFunction<L>>(
    m: Model<L>,
    cf: &CF,
    rows: Seq<Seq<u64>>,
    best: Seq<Option<Pick<CF::Cost, L>>>,
) -> bool {
    forall|i: int, a: int|
        #![trigger m.nodes[i][a]]
        0 <= i < m.len() && 0 <= a < m.nodes[i].len() ==> settled_at(
            m,
            cf,
            rows,
            best,
            i,
            a,
        )
}

/// How many classes have no pick.
spec fn unset<C, L>(best: Seq<Option<Pick<C, L>>>) -> nat {
    tally(
        |i: int|
            if best[i] is None {
                1nat
            } else {
                0nat
            },
        best.len(),
    )
}

/// The sum of the ranks of all picks.
spec fn ranks<L: Language, CF: CostFunction<L>>(best: Seq<Option<Pick<CF::Cost, L>>>) -> nat {
    tally(
        |i: int|
            if best[i] is Some {
                CF::rank(best[i]->0.cost)
            } else {
                0nat
            },
        best.len(),
    )
}

/// The sum of the hashes of all picks.
spec fn marks<C, L>(best: Seq<Option<Pick<C, L>>>) -> nat {
    tally(
        |i: int|
            if best[i] is Some {
                best[i]->0.hash as nat
            } else {
                0nat
            },
        best.len(),
    )
}

/// `new` is ahead of `old`: more classes have picks, or picks are cheaper, or
/// equally cheap with smaller hashes.
spec fn ahead<L: Language, CF: CostFunction<L>>(
    old: Seq<Option<Pick<CF::Cost, L>>>,
    new: Seq<Option<Pick<CF::Cost, L>>>,
) -> bool {
    ||| unset(new) < unset(old)
    ||| unset(new) == unset(old) && ranks::<L, CF>(new) < ranks::<L, CF>(old)
    ||| unset(new) == unset(old) && ranks::<L, CF>(new) == ranks::<L, CF>(old) && marks(new)
        < marks(old)
}

/// Replacing one pick by a better one.
proof fn lemma_ahead<L: Language, CF: CostFunction<L>>(
    old: Seq<Option<Pick<CF::Cost, L>>>,
    k: int,
    pick: Pick<CF::Cost, L>,
)
    requires
        0 <= k < old.len(),
        old[k] is Some ==> CF::rank(pick.cost) < CF::rank(old[k]->0.cost) || (CF::rank(pick.cost)
            == CF::rank(old[k]->0.cost) && pick.hash < old[k]->0.hash),
    ensures
        ahead::<L, CF>(old, old.update(k, Some(pick))),
{
    let new = old.update(k, Some(pick));
    let n = old.len();
    let unset_of = |best: Seq<Option<Pick<CF::Cost, L>>>|
        |i: int|
            if best[i] is None {
                1nat
            } else {
                0nat
            };
    let rank_of = |best: Seq<Option<Pick<CF::Cost, L>>>|
        |i: int|
            if best[i] is Some {
                CF::rank(best[i]->0.cost)
            } else {
                0nat
            };
    let hash_of = |best: Seq<Option<Pick<CF::Cost, L>>>|
        |i: int|
            if best[i] is Some {
                best[i]->0.hash as nat
            } else {
                0nat
            };
    lemma_tally(unset_of(old), unset_of(new), k, n);
    lemma_tally(rank_of(old), rank_of(new), k, n);
    lemma_tally(hash_of(old), hash_of(new), k, n);
    assert(unset(old) == tally(unset_of(old), n));
    assert(unset(new) == tally(unset_of(new), n));
    assert(ranks::<L, CF>(old) == tally(rank_of(old), n));
    assert(ranks::<L, CF>(new) == tally(rank_of(new), n));
    assert(marks(old) == tally(hash_of(old), n));
    assert(marks(new) == tally(hash_of(new), n));
}

proof fn lemma_ahead_trans<L: Language, CF: CostFunction<L>>(
    a: Seq<Option<Pick<CF::Cost, L>>>,
    b: Seq<Option<Pick<CF::Cost, L>>>,
    c: Seq<Option<Pick<CF::Cost, L>>>,
)
    requires
        ahead::<L, CF>(a, b),
        ahead::<L, CF>(b, c),
    ensures
        ahead::<L, CF>(a, c),
{
}

/// The same prices.
spec fn same_prices<L: Language, CF: CostFunction<L>>(a: &CF, b: &CF) -> bool {
    forall|node: L, parts: Seq<CF::Cost>| #[trigger] b.price(node, parts) == a.price(node, parts)
}

/// A better pick for one class keeps what is known of all picks.
proof fn lemma_better_pick<L: Language, CF: CostFunction<L>>(
    m: Model<L>,
    cf: &CF,
    best: Seq<Option<Pick<CF::Cost, L>>>,
    k: int,
    pick: Pick<CF::Cost, L>,
)
    requires
        m.shape(),
        valid(m, best),
        0 <= k < m.len(),
        m.roots[k] == Id(k as u32),
        m.nodes[k].contains(pick.node),
        ready(m, best, pick.node),
        pick.cost == cf.price(pick.node, kid_costs(m, best, pick.node)),
        best[k] is Some ==> CF::rank(pick.cost) <= CF::rank(best[k]->0.cost),
    ensures
        valid(m, best.update(k, Some(pick))),
        forall|top: nat| #[trigger]
            well_ordered::<L, CF>(cf, top) && bounded::<L, CF>(m, cf, best) ==> bounded::<L, CF>(
                m,
                cf,
                best.update(k, Some(pick)),
            ),
{
    let new = best.update(k, Some(pick));
    assert forall|i: int, node: L| 0 <= i < m.len() && #[trigger] m.nodes[i].contains(
        node,
    ) implies m.knows(node) by {
        let a = choose|a: int| 0 <= a < m.nodes[i].len() && m.nodes[i][a] == node;
        assert(m.knows(m.nodes[i][a]));
    }
    assert forall|node: L| m.knows(node) && ready(m, best, node) implies #[trigger] ready(
        m,
        new,
        node,
    ) by {
        assert forall|j: int|
            #![trigger node.kids()[j]]
            0 <= j < node.kids().len() implies new[m.root(node.kids()[j]).at()] is Some by {
            let kid = node.kids()[j];
            assert(m.has(kid));
            assert(best[m.root(kid).at()] is Some);
        }
    }
    assert forall|i: int| #![trigger new[i]] 0 <= i < new.len() && new[i] is Some implies m.roots[i]
        == Id(i as u32) && m.nodes[i].contains(new[i]->0.node) && ready(
        m,
        new,
        new[i]->0.node,
    ) by {
        if i != k {
            assert(new[i] == best[i]);
        }
    }
    assert forall|top: nat| #[trigger]
        well_ordered::<L, CF>(cf, top) && bounded::<L, CF>(m, cf, best) implies bounded::<L, CF>(
        m,
        cf,
        new,
    ) by {
        assert forall|i: int| #![trigger new[i]] 0 <= i < new.len() && new[i] is Some implies CF::rank(
            cf.price(new[i]->0.node, kid_costs(m, new, new[i]->0.node)),
        ) <= CF::rank(new[i]->0.cost) by {
            let node = new[i]->0.node;
            let (low, high) = (kid_costs(m, new, node), kid_costs(m, best, node));
            assert(i != k ==> new[i] == best[i]);
            assert(m.nodes[i].contains(node));
            assert(ready(m, best, node));
            assert forall|j: int| #![trigger low[j]] #![trigger high[j]] 0 <= j < low.len() implies CF::rank(low[j])
                <= CF::rank(high[j]) by {
                let r = m.root(node.kids()[j]).at();
                assert(best[r] is Some);
            }
            assert(cheaper::<L, CF>(low, high));
            assert(CF::rank(cf.price(node, low)) <= CF::rank(cf.price(node, high)));
        }
    }
}

impl<L: Language, N: ClassData> EGraph<L, N> {
    /// Whether every child of `node` already has a best cost.
    fn is_ready<C>(&self, node: &L, best: &Vec<Option<Pick<C, L>>>) -> (yes: bool)
        requires
            self.safe(),
            self.model().knows(*node),
            best@.len() == self.model().len(),
        ensures
            yes == ready(self.model(), best@, *node),
    {
        let mut j: usize = 0;
        while j < node.children().len()
            invariant
                self.safe(),
                self.model().knows(*node),
                best@.len() == self.model().len(),
                j <= node.kids().len(),
                forall|i: int|
                    #![trigger node.kids()[i]]
                    0 <= i < j ==> best@[self.model().root(node.kids()[i]).at()] is Some,
            decreases node.kids().len() - j,
        {
            let child = node.children()[j];
            assert(node.kids()[j as int] == child);
            let root = self.find_immut(child);
            if best[root.0 as usize].is_none() {
                return false;
            }
            j = j + 1;
        }
        true
    }

    /// Take the node at `a` of the class `id` as its pick, if that improves it.
    fn consider<CF: CostFunction<L>>(
        &self,
        id: Id,
        a: usize,
        cost_fn: &mut CF,
        hashes: &Vec<Vec<u64>>,
        best: &mut Vec<Option<Pick<CF::Cost, L>>>,
    ) -> (improved: bool)
        requires
            self.safe(),
            tabled(self.model(), rows_of(hashes@)),
            marked(self.model(), rows_of(hashes@), old(best)@),
            sound_costs::<L, CF>(),
            self.model().has(id),
            self.model().root(id) == id,
            a < self.model().nodes[id.at()].len(),
            valid(self.model(), old(best)@),
        ensures
            same_prices::<L, CF>(old(cost_fn), final(cost_fn)),
            marked(self.model(), rows_of(hashes@), final(best)@),
            valid(self.model(), final(best)@),
            forall|top: nat| #[trigger]
                well_ordered::<L, CF>(old(cost_fn), top) && bounded::<L, CF>(
                    self.model(),
                    old(cost_fn),
                    old(best)@,
                ) ==> bounded::<L, CF>(self.model(), old(cost_fn), final(best)@),
            improved ==> ahead::<L, CF>(old(best)@, final(best)@),
            !improved ==> final(best)@ == old(best)@ && settled_at::<L, CF>(
                self.model(),
                old(cost_fn),
                rows_of(hashes@),
                old(best)@,
                id.at(),
                a as int,
            ),
    {
        proof {
            self.lemma_safe();
            assert(self.model().knows(self.model().nodes[id.at()][a as int]));
        }
        let ghost m = self.model();
        let ghost cf = *cost_fn;
        let ghost rows = rows_of(hashes@);
        assert(rows[id.at()].len() == m.nodes[id.at()].len());
        let node = &self.classes[id.0 as usize].as_ref().unwrap().nodes[a];
        assert(*node == m.nodes[id.at()][a as int]);
        if !self.is_ready(node, best) {
            return false;
        }
        let table = &*best;
        let lookup = |c: Id| -> (cost: CF::Cost)
            requires
                self.model().has(c),
                table@[self.model().root(c).at()] is Some,
            ensures
                cloned(table@[self.model().root(c).at()]->0.cost, cost),
            {
                let root = self.find_immut(c);
                table[root.0 as usize].as_ref().unwrap().cost.clone()
            };
        assert forall|j: int| #![trigger node.kids()[j]] 0 <= j < node.kids().len() implies call_requires(
            lookup,
            (node.kids()[j],),
        ) by {
            assert(m.has(node.kids()[j]));
        }
        let cost = cost_fn.cost(node, lookup);
        let hash = hashes[id.0 as usize][a];
        let ghost held = kid_costs(m, best@, *node);
        proof {
            let parts = choose|parts: Seq<CF::Cost>|
                #![trigger cf.price(*node, parts)]
                {
                    &&& parts.len() == node.kids().len()
                    &&& forall|j: int|
                        #![trigger parts[j]]
                        0 <= j < parts.len() ==> call_ensures(lookup, (node.kids()[j],), parts[j])
                    &&& cost == cf.price(*node, parts)
                };
            assert(parts =~= held) by {
                assert forall|j: int| 0 <= j < parts.len() implies parts[j] == held[j] by {
                    assert(call_ensures(lookup, (node.kids()[j],), parts[j]));
                    assert(cloned(held[j], parts[j]));
                }
            }
            assert(m.nodes[id.at()].contains(*node));
        }
        let improved = match &best[id.0 as usize] {
            None => true,
            Some(current) => improves(&cost, hash, &current.cost, current.hash),
        };
        if improved {
            let ghost before = best@;
            let pick = Pick { cost, node: copy_node(node), hash };
            proof {
                lemma_better_pick::<L, CF>(m, &cf, before, id.at(), pick);
                lemma_ahead::<L, CF>(before, id.at(), pick);
            }
            assert(has_mark(m, rows, id.at(), pick.node, pick.hash)) by {
                assert(m.nodes[id.at()][a as int] == pick.node);
                assert(rows[id.at()][a as int] == hash);
            }
            best.set(id.0 as usize, Some(pick));
            assert forall|i: int|
                #![trigger best@[i]]
                0 <= i < best@.len() && best@[i] is Some implies has_mark(
                m,
                rows,
                i,
                best@[i]->0.node,
                best@[i]->0.hash,
            ) by {
                if i != id.at() {
                    assert(best@[i] == before[i]);
                }
            }
        }
        improved
    }

    /// The best node of every class: picks are improved until no node is
    /// cheaper than the pick of its class.
    fn best_picks<CF: CostFunction<L>>(
        &self,
        cost_fn: &mut CF,
        hashes: &Vec<Vec<u64>>,
    ) -> (best: Vec<Option<Pick<CF::Cost, L>>>)
        requires
            self.wf(),
            tabled(self.model(), rows_of(hashes@)),
            sound_costs::<L, CF>(),
        ensures
            same_prices::<L, CF>(old(cost_fn), final(cost_fn)),
            marked(self.model(), rows_of(hashes@), best@),
            valid(self.model(), best@),
            stable::<L, CF>(self.model(), old(cost_fn), rows_of(hashes@), best@),
            forall|top: nat| #[trigger]
                well_ordered::<L, CF>(old(cost_fn), top) ==> bounded::<L, CF>(
                    self.model(),
                    old(cost_fn),
                    best@,
                ),
    {
        let ghost m = self.model();
        let ghost cf = *cost_fn;
        let ghost rows = rows_of(hashes@);
        proof {
            self.lemma_safe();
        }
        let mut best: Vec<Option<Pick<CF::Cost, L>>> = Vec::new();
        let mut n: usize = 0;
        while n < self.classes.len()
            invariant
                n <= self.classes@.len(),
                best@.len() == n,
                forall|i: int| #![trigger best@[i]] 0 <= i < n ==> best@[i] is None,
            decreases self.classes@.len() - n,
        {
            best.push(None);
            n = n + 1;
        }
        // Iterate to a fixpoint: a node is costed only once all its children
        // have a known cost; smaller costs propagate upward.
        let mut changed = true;
        while changed
            invariant
                self.wf(),
                m == self.model(),
                m.shape(),
                sound_costs::<L, CF>(),
                same_prices::<L, CF>(&cf, cost_fn),
                valid(m, best@),
                rows == rows_of(hashes@),
                tabled(m, rows),
                marked(m, rows, best@),
                forall|top: nat| #[trigger]
                    well_ordered::<L, CF>(&cf, top) ==> bounded::<L, CF>(m, &cf, best@),
                !changed ==> stable::<L, CF>(m, &cf, rows, best@),
            decreases
                    unset(best@),
                    ranks::<L, CF>(best@),
                    marks(best@),
                    if changed {
                        1int
                    } else {
                        0int
                    },
        {
            changed = false;
            let ghost head = best@;
            let mut i: usize = 0;
            while i < self.classes.len()
                invariant
                    self.wf(),
                    m == self.model(),
                    m.shape(),
                    m.len() == self.classes@.len(),
                    i <= m.len(),
                    sound_costs::<L, CF>(),
                    same_prices::<L, CF>(&cf, cost_fn),
                    valid(m, best@),
                    rows == rows_of(hashes@),
                    tabled(m, rows),
                    marked(m, rows, best@),
                    forall|top: nat| #[trigger]
                        well_ordered::<L, CF>(&cf, top) ==> bounded::<L, CF>(m, &cf, best@),
                    changed ==> ahead::<L, CF>(head, best@),
                    !changed ==> best@ == head,
                    !changed ==> forall|k: int, a: int|
                        #![trigger m.nodes[k][a]]
                        0 <= k < i && 0 <= a < m.nodes[k].len() ==> settled_at::<L, CF>(
                            m,
                            &cf,
                            rows,
                            best@,
                            k,
                            a,
                        ),
                decreases self.classes@.len() - i,
            {
                if let Some(class) = &self.classes[i] {
                    let id = Id(i as u32);
                    assert(m.root(id) == id);
                    assert(m.nodes[i as int] == class.nodes@);
                    let mut a: usize = 0;
                    while a < class.nodes.len()
                        invariant
                            self.wf(),
                            m == self.model(),
                            m.shape(),
                            m.len() == self.classes@.len(),
                            i < m.len(),
                            id == Id(i as u32),
                            m.root(id) == id,
                            class.nodes@ == m.nodes[i as int],
                            a <= class.nodes@.len(),
                            sound_costs::<L, CF>(),
                            same_prices::<L, CF>(&cf, cost_fn),
                            valid(m, best@),
                            rows == rows_of(hashes@),
                            tabled(m, rows),
                            marked(m, rows, best@),
                            forall|top: nat| #[trigger]
                                well_ordered::<L, CF>(&cf, top) ==> bounded::<L, CF>(m, &cf, best@),
                            changed ==> ahead::<L, CF>(head, best@),
                            !changed ==> best@ == head,
                            !changed ==> forall|k: int, b: int|
                                #![trigger m.nodes[k][b]]
                                0 <= k < i && 0 <= b < m.nodes[k].len() ==> settled_at::<L, CF>(
                                    m,
                                    &cf,
                                    rows,
                                    best@,
                                    k,
                                    b,
                                ),
                            !changed ==> forall|b: int|
                                #![trigger m.nodes[i as int][b]]
                                0 <= b < a ==> settled_at::<L, CF>(m, &cf, rows, best@, i as int, b),
                        decreases class.nodes@.len() - a,
                    {
                        let ghost before = best@;
                        let ghost used = *cost_fn;
                        let improved = self.consider(id, a, cost_fn, hashes, &mut best);
                        proof {
                            lemma_same_order::<L, CF>(&cf, &used);
                            lemma_same_bounded::<L, CF>(m, &cf, &used, before);
                            lemma_same_bounded::<L, CF>(m, &cf, &used, best@);
                            if improved && changed {
                                lemma_ahead_trans::<L, CF>(head, before, best@);
                            }
                        }
                        if improved {
                            changed = true;
                        }
                        a = a + 1;
                    }
                } else {
                    assert(m.nodes[i as int].len() == 0);
                }
                i = i + 1;
            }
        }
        best
    }
}

/// Equal prices are equally ordered.
proof fn lemma_same_order<L: Language, CF: CostFunction<L>>(a: &CF, b: &CF)
    requires
        same_prices::<L, CF>(a, b),
    ensures
        forall|top: nat| #[trigger]
            well_ordered::<L, CF>(a, top) ==> well_ordered::<L, CF>(b, top),
{
    assert forall|top: nat| #[trigger] well_ordered::<L, CF>(a, top) implies well_ordered::<L, CF>(
        b,
        top,
    ) by {
        assert forall|node: L, low: Seq<CF::Cost>, high: Seq<CF::Cost>|
            #![trigger b.price(node, low), b.price(node, high)]
            low.len() == node.kids().len() && cheaper::<L, CF>(low, high) implies CF::rank(
            b.price(node, low),
        ) <= CF::rank(b.price(node, high)) by {
            assert(b.price(node, low) == a.price(node, low));
            assert(b.price(node, high) == a.price(node, high));
        }
        assert forall|node: L, parts: Seq<CF::Cost>, j: int|
            #![trigger b.price(node, parts), parts[j]]
            parts.len() == node.kids().len() && 0 <= j < parts.len() implies CF::rank(parts[j])
            < CF::rank(b.price(node, parts)) || CF::rank(b.price(node, parts)) == top by {
            assert(b.price(node, parts) == a.price(node, parts));
        }
        assert forall|node: L, parts: Seq<CF::Cost>| #[trigger]
            CF::rank(b.price(node, parts)) <= top by {
            assert(b.price(node, parts) == a.price(node, parts));
            assert(CF::rank(a.price(node, parts)) <= top);
        }
    }
}

proof fn lemma_same_bounded<L: Language, CF: CostFunction<L>>(
    m: Model<L>,
    a: &CF,
    b: &CF,
    best: Seq<Option<Pick<CF::Cost, L>>>,
)
    requires
        same_prices::<L, CF>(a, b),
    ensures
        bounded::<L, CF>(m, a, best) == bounded::<L, CF>(m, b, best),
{
    assert forall|i: int| #![trigger best[i]] 0 <= i < best.len() && best[i] is Some implies b.price(
        best[i]->0.node,
        kid_costs(m, best, best[i]->0.node),
    ) == a.price(best[i]->0.node, kid_costs(m, best, best[i]->0.node)) by {}
}

/// How many of the first `n` ids are not on the path.
spec fn free_ids(path: Set<u32>, n: nat) -> nat {
    tally(
        |k: int|
            if path.contains(k as u32) {
                0nat
            } else {
                1nat
            },
        n,
    )
}

proof fn lemma_free_ids(path: Set<u32>, x: u32, n: nat)
    requires
        x < n <= u32::MAX + 1,
        !path.contains(x),
    ensures
        free_ids(path.insert(x), n) < free_ids(path, n),
{
    let free_of = |p: Set<u32>|
        |k: int|
            if p.contains(k as u32) {
                0nat
            } else {
                1nat
            };
    assert(free_ids(path, n) == tally(free_of(path), n));
    assert(free_ids(path.insert(x), n) == tally(free_of(path.insert(x)), n));
    lemma_tally(free_of(path), free_of(path.insert(x)), x as int, n);
}

/// The class of `id` has a member such that no class on the path has one that
/// is as old.
spec fn reachable<L: Language>(m: Model<L>, path: Set<u32>, id: Id) -> bool {
    exists|i: int| 0 <= i < m.len() && m.root(id) == #[trigger] m.roots[i] && clear_up_to(m, path, i)
}

/// All children of `node` are reachable.
spec fn kids_reachable<L: Language>(m: Model<L>, path: Set<u32>, node: L) -> bool {
    forall|j: int|
        #![trigger node.kids()[j]]
        0 <= j < node.kids().len() ==> reachable(m, path, node.kids()[j])
}

/// No class on the path has a member up to `i`.
spec fn clear_up_to<L: Language>(m: Model<L>, path: Set<u32>, i: int) -> bool {
    forall|d: int| #![trigger m.roots[d]] 0 <= d <= i ==> !path.contains(m.roots[d].0)
}

/// The oldest member of the class of `i`.
proof fn lemma_oldest(roots: Seq<Id>, i: int, from: int) -> (oldest: int)
    requires
        0 <= from <= i < roots.len(),
        forall|d: int| #![trigger roots[d]] 0 <= d < from ==> roots[d] != roots[i],
    ensures
        0 <= oldest <= i,
        roots[oldest] == roots[i],
        forall|d: int| #![trigger roots[d]] 0 <= d < oldest ==> roots[d] != roots[i],
    decreases i - from,
{
    if roots[from] == roots[i] {
        from
    } else {
        lemma_oldest(roots, i, from + 1)
    }
}

/// A class that is reachable has a node whose children are reachable once the
/// class itself is on the path.
proof fn lemma_reachable_node<L: Language>(m: Model<L>, path: Set<u32>, id: Id) -> (a: int)
    requires
        m.shape(),
        m.grounded(),
        m.has(id),
        reachable(m, path, id),
    ensures
        !path.contains(m.root(id).0),
        0 <= a < m.class(id).len(),
        kids_reachable(m, path.insert(m.root(id).0), m.class(id)[a]),
{
    let i = choose|i: int|
        0 <= i < m.len() && m.root(id) == #[trigger] m.roots[i] && clear_up_to(m, path, i);
    let first = lemma_oldest(m.roots, i, 0);
    assert(m.grounded_at(first));
    let fid = Id(first as u32);
    let a = choose|a: int|
        0 <= a < m.class(fid).len() && older_kids(m.roots, #[trigger] m.class(fid)[a], first);
    assert(m.class(fid) == m.class(id));
    let node = m.class(id)[a];
    let r = m.root(id);
    assert(m.knows(m.nodes[r.at()][a]));
    assert forall|j: int| #![trigger node.kids()[j]] 0 <= j < node.kids().len() implies reachable(
        m,
        path.insert(r.0),
        node.kids()[j],
    ) by {
        let kid = node.kids()[j];
        assert(has_older(m.roots, kid, first));
        let d = choose|d: int|
            0 <= d < first && d < m.roots.len() && #[trigger] m.roots[d] == m.roots[kid.at()];
        assert(clear_up_to(m, path.insert(r.0), d)) by {
            assert forall|e: int| #![trigger m.roots[e]] 0 <= e <= d implies !path.insert(
                r.0,
            ).contains(m.roots[e].0) by {
                assert(m.roots[e] != r);
                assert(!path.contains(m.roots[e].0));
            }
        }
        assert(m.root(kid) == m.roots[d]);
    }
    a
}

/// Every class is reachable from nowhere.
proof fn lemma_reachable_root<L: Language>(m: Model<L>, id: Id)
    requires
        m.has(id),
    ensures
        reachable(m, Set::empty(), id),
{
    assert(clear_up_to(m, Set::empty(), id.at()));
    assert(m.root(id) == m.roots[id.at()]);
}

/// The picks are those of an optimal extraction.
spec fn solved<L: Language, CF: CostFunction<L>>(
    m: Model<L>,
    cf: &CF,
    rows: Seq<Seq<u64>>,
    best: Seq<Option<Pick<CF::Cost, L>>>,
    top: nat,
) -> bool {
    &&& well_ordered::<L, CF>(cf, top)
    &&& valid(m, best)
    &&& bounded::<L, CF>(m, cf, best)
    &&& stable::<L, CF>(m, cf, rows, best)
    &&& forall|i: int| #![trigger m.roots[i]] 0 <= i < m.len() ==> best[m.roots[i].at()] is Some
}

/// The rank of the best cost of the class of `id`.
spec fn best_rank<L: Language, CF: CostFunction<L>>(
    m: Model<L>,
    best: Seq<Option<Pick<CF::Cost, L>>>,
    id: Id,
) -> nat {
    CF::rank(best[m.root(id).at()]->0.cost)
}

/// All classes on the path cost more than that of `id`, which costs less than
/// the largest cost.
spec fn descends<L: Language, CF: CostFunction<L>>(
    m: Model<L>,
    best: Seq<Option<Pick<CF::Cost, L>>>,
    path: Set<u32>,
    id: Id,
    top: nat,
) -> bool {
    &&& best_rank::<L, CF>(m, best, id) < top
    &&& forall|p: u32| #[trigger]
        path.contains(p) ==> best_rank::<L, CF>(m, best, id) < best_rank::<L, CF>(m, best, Id(p))
}

/// Once no pick can be improved, every class has one.
proof fn lemma_all_picked<L: Language, CF: CostFunction<L>>(
    m: Model<L>,
    cf: &CF,
    rows: Seq<Seq<u64>>,
    best: Seq<Option<Pick<CF::Cost, L>>>,
    i: int,
)
    requires
        m.shape(),
        m.grounded(),
        valid(m, best),
        stable::<L, CF>(m, cf, rows, best),
        0 <= i < m.len(),
    ensures
        best[m.roots[i].at()] is Some,
    decreases i,
{
    assert(m.grounded_at(i));
    let id = Id(i as u32);
    let a = choose|a: int|
        0 <= a < m.class(id).len() && older_kids(m.roots, #[trigger] m.class(id)[a], i);
    let r = m.root(id).at();
    let node = m.nodes[r][a];
    assert(m.knows(m.nodes[r][a]));
    assert forall|j: int|
        #![trigger node.kids()[j]]
        0 <= j < node.kids().len() implies best[m.root(node.kids()[j]).at()] is Some by {
        assert(has_older(m.roots, node.kids()[j], i));
        let d = choose|d: int|
            0 <= d < i && d < m.roots.len() && #[trigger] m.roots[d] == m.roots[node.kids()[j].at()];
        lemma_all_picked::<L, CF>(m, cf, rows, best, d);
    }
    assert(settled_at::<L, CF>(m, cf, rows, best, r, a));
}

/// The rank of the best cost is that of its node over the best children, and
/// each child is strictly cheaper below the largest cost.
proof fn lemma_pick_price<L: Language, CF: CostFunction<L>>(
    m: Model<L>,
    cf: &CF,
    rows: Seq<Seq<u64>>,
    best: Seq<Option<Pick<CF::Cost, L>>>,
    top: nat,
    k: int,
)
    requires
        m.shape(),
        solved::<L, CF>(m, cf, rows, best, top),
        0 <= k < m.len(),
        best[k] is Some,
    ensures
        m.knows(best[k]->0.node),
        CF::rank(cf.price(best[k]->0.node, kid_costs(m, best, best[k]->0.node))) == CF::rank(
            best[k]->0.cost,
        ),
        CF::rank(best[k]->0.cost) <= top,
        CF::rank(best[k]->0.cost) < top ==> forall|j: int|
            #![trigger best[k]->0.node.kids()[j]]
            0 <= j < best[k]->0.node.kids().len() ==> best_rank::<L, CF>(
                m,
                best,
                best[k]->0.node.kids()[j],
            ) < CF::rank(best[k]->0.cost),
{
    let node = best[k]->0.node;
    let a = choose|a: int| 0 <= a < m.nodes[k].len() && m.nodes[k][a] == node;
    assert(m.nodes[k].contains(node));
    assert(m.knows(m.nodes[k][a]));
    assert(settled_at::<L, CF>(m, cf, rows, best, k, a));
    let parts = kid_costs(m, best, node);
    let price = cf.price(node, parts);
    assert(price.partial_cmp_spec(&best[k]->0.cost) != Some(Ordering::Less));
    assert(CF::rank(price) <= top);
    assert forall|j: int| #![trigger node.kids()[j]] 0 <= j < node.kids().len() && CF::rank(price)
        < top implies best_rank::<L, CF>(m, best, node.kids()[j]) < CF::rank(price) by {
        assert(parts[j] == best[m.root(node.kids()[j]).at()]->0.cost);
    }
}

/// No term of a class is cheaper than its best cost.
proof fn lemma_lower_bound<L: Language, CF: CostFunction<L>>(
    m: Model<L>,
    cf: &CF,
    rows: Seq<Seq<u64>>,
    best: Seq<Option<Pick<CF::Cost, L>>>,
    top: nat,
    id: Id,
    expr: Expr<L>,
)
    requires
        m.shape(),
        solved::<L, CF>(m, cf, rows, best, top),
        represents(m, id, expr),
    ensures
        best_rank::<L, CF>(m, best, id) <= CF::rank(cost_of(cf, expr)),
        CF::rank(cost_of(cf, expr)) <= top,
    decreases expr,
{
    let k = m.root(id).at();
    let node = expr.node;
    let a = choose|a: int| 0 <= a < m.nodes[k].len() && m.nodes[k][a] == node;
    assert(m.class(id).contains(node));
    assert(m.knows(m.nodes[k][a]));
    assert(ready(m, best, node)) by {
        assert forall|j: int|
            #![trigger node.kids()[j]]
            0 <= j < node.kids().len() implies best[m.root(node.kids()[j]).at()] is Some by {
            assert(m.has(node.kids()[j]));
            assert(m.root(node.kids()[j]) == m.roots[node.kids()[j].at()]);
        }
    }
    assert(settled_at::<L, CF>(m, cf, rows, best, k, a));
    let (low, high) = (kid_costs(m, best, node), part_costs(cf, expr));
    assert forall|j: int|
        #![trigger low[j]]
        #![trigger high[j]]
        0 <= j < low.len() implies CF::rank(low[j]) <= CF::rank(high[j]) by {
        lemma_lower_bound::<L, CF>(m, cf, rows, best, top, node.kids()[j], expr.children@[j]);
        assert(low[j] == best[m.root(node.kids()[j]).at()]->0.cost);
    }
    assert(cheaper::<L, CF>(low, high));
    let price = cf.price(node, low);
    assert(CF::rank(price) <= CF::rank(cf.price(node, high)));
    assert(price.partial_cmp_spec(&best[k]->0.cost) != Some(Ordering::Less));
    assert(CF::rank(cf.price(node, high)) <= top);
}

/// `expr` is made of the picks.
spec fn follows<L: Language, C>(
    m: Model<L>,
    best: Seq<Option<Pick<C, L>>>,
    id: Id,
    expr: Expr<L>,
) -> bool
    decreases expr,
{
    &&& expr.node == best[m.root(id).at()]->0.node
    &&& expr.children@.len() == expr.node.kids().len()
    &&& forall|j: int|
        #![trigger expr.children@[j]]
        0 <= j < expr.children@.len() ==> follows(m, best, expr.node.kids()[j], expr.children@[j])
}

/// What is made of the picks is chosen.
proof fn lemma_chosen<L: Language, CF: CostFunction<L>>(
    m: Model<L>,
    cf: &CF,
    rows: Seq<Seq<u64>>,
    best: Seq<Option<Pick<CF::Cost, L>>>,
    top: nat,
    id: Id,
    expr: Expr<L>,
)
    requires
        m.shape(),
        sound_costs::<L, CF>(),
        solved::<L, CF>(m, cf, rows, best, top),
        tabled(m, rows),
        marked(m, rows, best),
        represents(m, id, expr),
        follows(m, best, id, expr),
        best_rank::<L, CF>(m, best, id) < top,
    ensures
        chosen(m, cf, rows, id, expr),
        CF::rank(cost_of(cf, expr)) == best_rank::<L, CF>(m, best, id),
    decreases expr,
{
    let r = m.root(id);
    let k = r.at();
    assert(m.root(id) == m.roots[id.at()]);
    assert(best[k] is Some);
    lemma_pick_price::<L, CF>(m, cf, rows, best, top, k);
    let node = expr.node;
    assert forall|j: int|
        #![trigger expr.children@[j]]
        0 <= j < expr.children@.len() implies chosen(
        m,
        cf,
        rows,
        node.kids()[j],
        expr.children@[j],
    ) && CF::rank(cost_of(cf, expr.children@[j])) == best_rank::<L, CF>(
        m,
        best,
        node.kids()[j],
    ) by {
        assert(represents(m, node.kids()[j], expr.children@[j]));
        assert(best_rank::<L, CF>(m, best, best[k]->0.node.kids()[j]) < CF::rank(best[k]->0.cost));
        lemma_chosen::<L, CF>(m, cf, rows, best, top, node.kids()[j], expr.children@[j]);
    }
    lemma_cost_rank::<L, CF>(m, cf, rows, best, top, id, expr);
    assert(cheapest(m, cf, id, expr)) by {
        assert forall|other: Expr<L>| #[trigger] represents(m, id, other) implies CF::rank(
            cost_of(cf, expr),
        ) <= CF::rank(cost_of(cf, other)) by {
            lemma_lower_bound::<L, CF>(m, cf, rows, best, top, id, other);
        }
    }
    assert(has_mark(m, rows, k, best[k]->0.node, best[k]->0.hash));
    let a = choose|a: int|
        #![trigger m.nodes[k][a]]
        0 <= a < m.nodes[k].len() && m.nodes[k][a] == node && rows[k][a] == best[k]->0.hash;
    let row = rows[k];
    assert forall|b: int, other: Expr<L>|
        #![trigger row[b], represents(m, id, other)]
        0 <= b < m.class(id).len() && m.class(id)[b] == other.node && represents(m, id, other)
            && CF::rank(cost_of(cf, other)) == CF::rank(cost_of(cf, expr)) implies row[a]
        <= row[b] by {
        lemma_tie::<L, CF>(m, cf, rows, best, top, id, other, b);
    }
    assert(first_in_row(m, cf, rows, id, expr, a));
}

/// A node that starts a term of the best cost has no smaller number than the
/// pick.
proof fn lemma_tie<L: Language, CF: CostFunction<L>>(
    m: Model<L>,
    cf: &CF,
    rows: Seq<Seq<u64>>,
    best: Seq<Option<Pick<CF::Cost, L>>>,
    top: nat,
    id: Id,
    other: Expr<L>,
    b: int,
)
    requires
        m.shape(),
        sound_costs::<L, CF>(),
        solved::<L, CF>(m, cf, rows, best, top),
        represents(m, id, other),
        0 <= b < m.class(id).len(),
        m.class(id)[b] == other.node,
        CF::rank(cost_of(cf, other)) == best_rank::<L, CF>(m, best, id),
    ensures
        best[m.root(id).at()]->0.hash <= rows[m.root(id).at()][b],
{
    let k = m.root(id).at();
    let node = other.node;
    assert(m.nodes[k][b] == node);
    assert(m.knows(m.nodes[k][b]));
    assert(ready(m, best, node)) by {
        assert forall|j: int|
            #![trigger node.kids()[j]]
            0 <= j < node.kids().len() implies best[m.root(node.kids()[j]).at()] is Some by {
            assert(m.has(node.kids()[j]));
            assert(m.root(node.kids()[j]) == m.roots[node.kids()[j].at()]);
        }
    }
    assert(settled_at::<L, CF>(m, cf, rows, best, k, b));
    let (low, high) = (kid_costs(m, best, node), part_costs(cf, other));
    assert forall|j: int|
        #![trigger low[j]]
        #![trigger high[j]]
        0 <= j < low.len() implies CF::rank(low[j]) <= CF::rank(high[j]) by {
        lemma_lower_bound::<L, CF>(m, cf, rows, best, top, node.kids()[j], other.children@[j]);
        assert(low[j] == best[m.root(node.kids()[j]).at()]->0.cost);
    }
    assert(cheaper::<L, CF>(low, high));
    let price = cf.price(node, low);
    let held = best[k]->0.cost;
    assert(CF::rank(price) <= CF::rank(cf.price(node, high)));
    assert(CF::rank(price) <= CF::rank(held));
    if CF::rank(price) < CF::rank(held) {
        assert(price.partial_cmp_spec(&held) == Some(Ordering::Less));
    } else {
        assert(price.partial_cmp_spec(&held) == Some(Ordering::Equal));
    }
}

impl<L: Language, N: ClassData> EGraph<L, N> {
    /// An expression with the node `node`, guarding against cycles.
    fn build_node<CF: CostFunction<L>>(
        &self,
        node: &L,
        best: &Vec<Option<Pick<CF::Cost, L>>>,
        on_path: &mut HashSet<u32>,
        Ghost(cf): Ghost<CF>,
        Ghost(rows): Ghost<Seq<Seq<u64>>>,
        Ghost(top): Ghost<nat>,
    ) -> (found: Option<Expr<L>>)
        requires
            self.wf(),
            self.model().knows(*node),
            valid(self.model(), best@),
        ensures
            final(on_path)@ == old(on_path)@,
            found matches Some(expr) ==> {
                &&& expr.node == *node
                &&& expr.children@.len() == node.kids().len()
                &&& forall|j: int|
                    #![trigger expr.children@[j]]
                    0 <= j < expr.children@.len() ==> represents(
                        self.model(),
                        node.kids()[j],
                        expr.children@[j],
                    )
            },
            kids_reachable(self.model(), old(on_path)@, *node) ==> found is Some,
            solved::<L, CF>(self.model(), &cf, rows, best@, top) && (forall|j: int|
                #![trigger node.kids()[j]]
                0 <= j < node.kids().len() ==> descends::<L, CF>(
                    self.model(),
                    best@,
                    old(on_path)@,
                    node.kids()[j],
                    top,
                )) ==> found is Some && forall|j: int|
                #![trigger found->0.children@[j]]
                0 <= j < node.kids().len() ==> CF::rank(cost_of(&cf, found->0.children@[j]))
                    == best_rank::<L, CF>(self.model(), best@, node.kids()[j]) && follows(
                    self.model(),
                    best@,
                    node.kids()[j],
                    found->0.children@[j],
                ),
        decreases free_ids(old(on_path)@, self.model().len()), 1nat,
    {
        let ghost m = self.model();
        let ghost path = on_path@;
        proof {
            self.lemma_safe();
        }
        let mut kids: Vec<Expr<L>> = Vec::new();
        let mut j: usize = 0;
        while j < node.children().len()
            invariant
                self.wf(),
                lawful::<L>(),
                m == self.model(),
                m.knows(*node),
                valid(m, best@),
                path == old(on_path)@,
                on_path@ == path,
                j <= node.kids().len(),
                kids@.len() == j,
                forall|i: int|
                    #![trigger kids@[i]]
                    0 <= i < j ==> represents(m, node.kids()[i], kids@[i]),
                solved::<L, CF>(m, &cf, rows, best@, top) && (forall|i: int|
                    #![trigger node.kids()[i]]
                    0 <= i < node.kids().len() ==> descends::<L, CF>(
                        m,
                        best@,
                        path,
                        node.kids()[i],
                        top,
                    )) ==> forall|i: int|
                    #![trigger kids@[i]]
                    0 <= i < j ==> CF::rank(cost_of(&cf, kids@[i])) == best_rank::<L, CF>(
                        m,
                        best@,
                        node.kids()[i],
                    ) && follows(m, best@, node.kids()[i], kids@[i]),
            decreases node.kids().len() - j,
        {
            let child = node.children()[j];
            assert(node.kids()[j as int] == child);
            match self.build_expr_guarded::<CF>(child, best, on_path, Ghost(cf), Ghost(rows), Ghost(top)) {
                Some(kid) => {
                    kids.push(kid);
                },
                None => {
                    return None;
                },
            }
            j = j + 1;
        }
        Some(Expr { node: copy_node(node), children: kids })
    }

    /// Build a finite expression tree for `id`, guarding against cycles.
    ///
    /// The cost fixpoint normally picks a class's cheapest node, which is
    /// acyclic. But an e-class can contain a node that refers back to itself
    /// (e.g. after unioning `x` with `x + 0`). The ids on the recursion path
    /// are tracked and never entered again, so that another node is tried.
    fn build_expr_guarded<CF: CostFunction<L>>(
        &self,
        id: Id,
        best: &Vec<Option<Pick<CF::Cost, L>>>,
        on_path: &mut HashSet<u32>,
        Ghost(cf): Ghost<CF>,
        Ghost(rows): Ghost<Seq<Seq<u64>>>,
        Ghost(top): Ghost<nat>,
    ) -> (found: Option<Expr<L>>)
        requires
            self.wf(),
            self.model().has(id),
            valid(self.model(), best@),
        ensures
            final(on_path)@ == old(on_path)@,
            found matches Some(expr) ==> represents(self.model(), id, expr),
            reachable(self.model(), old(on_path)@, id) ==> found is Some,
            solved::<L, CF>(self.model(), &cf, rows, best@, top) && descends::<L, CF>(
                self.model(),
                best@,
                old(on_path)@,
                id,
                top,
            ) ==> found is Some && CF::rank(cost_of(&cf, found->0)) == best_rank::<L, CF>(
                self.model(),
                best@,
                id,
            ) && follows(self.model(), best@, id, found->0),
        decreases free_ids(old(on_path)@, self.model().len()), 0nat,
    {
        let ghost m = self.model();
        let ghost path = on_path@;
        proof {
            self.lemma_safe();
        }
        let root = self.find_immut(id);
        if on_path.contains(&root.0) {
            // `root` is already an ancestor: following it would cycle.
            proof {
                if reachable(m, path, id) {
                    let i = choose|i: int|
                        0 <= i < m.len() && m.root(id) == #[trigger] m.roots[i] && clear_up_to(
                            m,
                            path,
                            i,
                        );
                    assert(!path.contains(m.roots[i].0));
                }
                assert(m.root(Id(root.0)) == root);
            }
            return None;
        }
        on_path.insert(root.0);
        let ghost longer = on_path@;
        proof {
            lemma_free_ids(path, root.0, m.len());
            assert(longer.remove(root.0) =~= path);
        }
        // Try the fixpoint's pick first, then any other node in the class, so
        // that a cyclic representative can be bypassed.
        if let Some(pick) = &best[root.0 as usize] {
            proof {
                assert(best@[root.at()] is Some);
                let a = choose|a: int| 0 <= a < m.nodes[root.at()].len() && m.nodes[root.at()][a]
                    == pick.node;
                assert(m.nodes[root.at()].contains(pick.node));
                assert(m.knows(m.nodes[root.at()][a]));
            }
            let found = self.build_node::<CF>(
                &pick.node,
                best,
                on_path,
                Ghost(cf),
                Ghost(rows),
                Ghost(top),
            );
            if let Some(expr) = found {
                on_path.remove(&root.0);
                proof {
                    assert(represents(m, id, expr));
                    if solved::<L, CF>(m, &cf, rows, best@, top) && descends::<L, CF>(
                        m,
                        best@,
                        path,
                        id,
                        top,
                    ) {
                        lemma_descends::<L, CF>(m, &cf, rows, best@, top, path, id);
                        lemma_cost_rank::<L, CF>(m, &cf, rows, best@, top, id, expr);
                    }
                }
                return Some(expr);
            }
            proof {
                if solved::<L, CF>(m, &cf, rows, best@, top) && descends::<L, CF>(
                    m,
                    best@,
                    path,
                    id,
                    top,
                ) {
                    lemma_descends::<L, CF>(m, &cf, rows, best@, top, path, id);
                }
            }
        }
        assert(!(solved::<L, CF>(m, &cf, rows, best@, top) && descends::<L, CF>(
            m,
            best@,
            path,
            id,
            top,
        ))) by {
            assert(m.root(id) == m.roots[id.at()]);
        }
        let nodes = &self.classes[root.0 as usize].as_ref().unwrap().nodes;
        assert(nodes@ == m.class(id));
        let mut a: usize = 0;
        while a < nodes.len()
            invariant
                self.wf(),
                m == self.model(),
                m.shape(),
                m.has(id),
                root == m.root(id),
                valid(m, best@),
                nodes@ == m.class(id),
                path == old(on_path)@,
                !path.contains(root.0),
                longer == path.insert(root.0),
                longer.remove(root.0) == path,
                on_path@ == longer,
                free_ids(longer, m.len()) < free_ids(path, m.len()),
                a <= nodes@.len(),
                !(solved::<L, CF>(m, &cf, rows, best@, top) && descends::<L, CF>(
                    m,
                    best@,
                    path,
                    id,
                    top,
                )),
                forall|b: int|
                    #![trigger nodes@[b]]
                    0 <= b < a ==> !kids_reachable(m, longer, nodes@[b]),
            decreases nodes@.len() - a,
        {
            assert(m.knows(m.nodes[root.at()][a as int]));
            let found = self.build_node::<CF>(
                &nodes[a],
                best,
                on_path,
                Ghost(cf),
                Ghost(rows),
                Ghost(top),
            );
            if let Some(expr) = found {
                on_path.remove(&root.0);
                assert(m.class(id)[a as int] == expr.node);
                assert(represents(m, id, expr));
                return Some(expr);
            }
            a = a + 1;
        }
        on_path.remove(&root.0);
        proof {
            if reachable(m, path, id) {
                reveal(Model::consistent_with);
                let b = lemma_reachable_node(m, path, id);
                assert(nodes@[b] == m.class(id)[b]);
            }
        }
        None
    }

    /// Build the expression that the picks stand for.
    fn build_expr<CF: CostFunction<L>>(
        &self,
        id: Id,
        best: &Vec<Option<Pick<CF::Cost, L>>>,
        Ghost(cf): Ghost<CF>,
        Ghost(rows): Ghost<Seq<Seq<u64>>>,
        Ghost(top): Ghost<nat>,
    ) -> (expr: Expr<L>)
        requires
            self.wf(),
            self.model().has(id),
            valid(self.model(), best@),
        ensures
            represents(self.model(), id, expr),
            solved::<L, CF>(self.model(), &cf, rows, best@, top) && best_rank::<L, CF>(
                self.model(),
                best@,
                id,
            ) < top ==> CF::rank(cost_of(&cf, expr)) == best_rank::<L, CF>(
                self.model(),
                best@,
                id,
            ) && follows(self.model(), best@, id, expr),
    {
        let mut on_path: HashSet<u32> = HashSet::new();
        proof {
            assert(on_path@ =~= Set::empty());
            lemma_reachable_root(self.model(), id);
        }
        self.build_expr_guarded::<CF>(
            id,
            best,
            &mut on_path,
            Ghost(cf),
            Ghost(rows),
            Ghost(top),
        ).unwrap()
    }

    /// Extract the lowest-cost term for `root` under a pluggable `cost_fn`.
    ///
    /// The cost model is decoupled from the language: pass any
    /// [`CostFunction`] to extract with different objectives without touching
    /// the language definition. The result is a term of the class; under a
    /// well-ordered cost model no term of the class is cheaper.
    ///
    /// Of equally cheap terms the one is taken whose node has the smallest hash,
    /// in every class on the way down: see [`extract_by`](Self::extract_by).
    /// What the hashes are is up to the `Hash` impl of the language.
    pub fn extract_best<CF: CostFunction<L>>(&self, root: Id, cost_fn: &mut CF) -> (expr: Expr<L>)
        requires
            self.wf(),
            self.model().has(root),
            sound_costs::<L, CF>(),
        ensures
            represents(self.model(), root, expr),
            exists|rows: Seq<Seq<u64>>| #[trigger]
                tabled(self.model(), rows) && extracted(
                    self.model(),
                    old(cost_fn),
                    rows,
                    root,
                    expr,
                ),
            forall|top: nat, other: Expr<L>|
                #![trigger well_ordered::<L, CF>(old(cost_fn), top), represents(self.model(), root, other)]
                well_ordered::<L, CF>(old(cost_fn), top) && represents(self.model(), root, other)
                    ==> CF::rank(cost_of(old(cost_fn), expr)) <= CF::rank(
                    cost_of(old(cost_fn), other),
                ),
            forall|node: L, parts: Seq<CF::Cost>| #[trigger]
                final(cost_fn).price(node, parts) == old(cost_fn).price(node, parts),
    {
        let hashes = self.stable_hashes();
        self.extract_by(root, cost_fn, &hashes)
    }

    /// A hash for every e-node of every class.
    fn stable_hashes(&self) -> (hashes: Vec<Vec<u64>>)
        requires
            self.wf(),
        ensures
            tabled(self.model(), rows_of(hashes@)),
    {
        let ghost m = self.model();
        proof {
            self.lemma_safe();
        }
        let mut hashes: Vec<Vec<u64>> = Vec::new();
        let mut i: usize = 0;
        while i < self.classes.len()
            invariant
                self.wf(),
                m == self.model(),
                m.shape(),
                m.len() == self.classes@.len(),
                i <= m.len(),
                hashes@.len() == i,
                forall|k: int|
                    #![trigger hashes@[k]]
                    0 <= k < i ==> hashes@[k]@.len() == m.nodes[k].len(),
            decreases self.classes@.len() - i,
        {
            let mut row: Vec<u64> = Vec::new();
            if let Some(class) = &self.classes[i] {
                assert(m.nodes[i as int] == class.nodes@);
                let mut a: usize = 0;
                while a < class.nodes.len()
                    invariant
                        a <= class.nodes@.len(),
                        row@.len() == a,
                    decreases class.nodes@.len() - a,
                {
                    row.push(stable_hash(&class.nodes[a]));
                    a = a + 1;
                }
            } else {
                assert(m.nodes[i as int].len() == 0);
            }
            hashes.push(row);
            i = i + 1;
        }
        hashes
    }

    /// Extract the lowest-cost term for `root`, with ties broken by `hashes`,
    /// which holds a number for every e-node of every class: of equally cheap
    /// terms the one is taken whose node has the smallest number, in every class
    /// on the way down.
    pub fn extract_by<CF: CostFunction<L>>(
        &self,
        root: Id,
        cost_fn: &mut CF,
        hashes: &Vec<Vec<u64>>,
    ) -> (expr: Expr<L>)
        requires
            self.wf(),
            self.model().has(root),
            sound_costs::<L, CF>(),
            tabled(self.model(), rows_of(hashes@)),
        ensures
            represents(self.model(), root, expr),
            extracted(self.model(), old(cost_fn), rows_of(hashes@), root, expr),
            forall|top: nat, other: Expr<L>|
                #![trigger well_ordered::<L, CF>(old(cost_fn), top), represents(self.model(), root, other)]
                well_ordered::<L, CF>(old(cost_fn), top) && represents(self.model(), root, other)
                    ==> CF::rank(cost_of(old(cost_fn), expr)) <= CF::rank(
                    cost_of(old(cost_fn), other),
                ),
            forall|node: L, parts: Seq<CF::Cost>| #[trigger]
                final(cost_fn).price(node, parts) == old(cost_fn).price(node, parts),
    {
        let ghost m = self.model();
        let ghost cf = *cost_fn;
        let ghost rows = rows_of(hashes@);
        let best = self.best_picks(cost_fn, hashes);
        let ghost low = best_rank::<L, CF>(m, best@, root);
        let ghost top = if exists|top: nat| #[trigger] well_ordered::<L, CF>(&cf, top) && low < top {
            choose|top: nat| #[trigger] well_ordered::<L, CF>(&cf, top) && low < top
        } else {
            choose|top: nat| well_ordered::<L, CF>(&cf, top)
        };
        let expr = self.build_expr::<CF>(root, &best, Ghost(cf), Ghost(rows), Ghost(top));
        proof {
            self.lemma_safe();
            reveal(Model::consistent_with);
            assert forall|any: nat, other: Expr<L>|
                #![trigger well_ordered::<L, CF>(&cf, any), represents(m, root, other)]
                well_ordered::<L, CF>(&cf, any) && represents(m, root, other) implies CF::rank(
                cost_of(&cf, expr),
            ) <= CF::rank(cost_of(&cf, other)) by {
                assert(well_ordered::<L, CF>(&cf, top));
                assert forall|i: int| #![trigger m.roots[i]] 0 <= i < m.len() implies best@[m.roots[i].at()] is Some by {
                    lemma_all_picked::<L, CF>(m, &cf, rows, best@, i);
                }
                assert(solved::<L, CF>(m, &cf, rows, best@, top));
                lemma_lower_bound::<L, CF>(m, &cf, rows, best@, top, root, other);
                lemma_lower_bound::<L, CF>(m, &cf, rows, best@, top, root, expr);
                assert(m.root(root) == m.roots[root.at()]);
                lemma_pick_price::<L, CF>(m, &cf, rows, best@, top, m.root(root).at());
            }
            assert forall|any: nat| #[trigger]
                well_ordered::<L, CF>(&cf, any) && CF::rank(cost_of(&cf, expr)) < any implies chosen(
                m,
                &cf,
                rows,
                root,
                expr,
            ) by {
                assert forall|i: int| #![trigger m.roots[i]] 0 <= i < m.len() implies best@[m.roots[i].at()] is Some by {
                    lemma_all_picked::<L, CF>(m, &cf, rows, best@, i);
                }
                assert(solved::<L, CF>(m, &cf, rows, best@, any));
                lemma_lower_bound::<L, CF>(m, &cf, rows, best@, any, root, expr);
                assert(low < any);
                assert(well_ordered::<L, CF>(&cf, top) && low < top);
                assert(solved::<L, CF>(m, &cf, rows, best@, top));
                lemma_chosen::<L, CF>(m, &cf, rows, best@, top, root, expr);
            }
        }
        expr
    }
}

/// Below a class, following its pick leads to cheaper classes only.
proof fn lemma_descends<L: Language, CF: CostFunction<L>>(
    m: Model<L>,
    cf: &CF,
    rows: Seq<Seq<u64>>,
    best: Seq<Option<Pick<CF::Cost, L>>>,
    top: nat,
    path: Set<u32>,
    id: Id,
)
    requires
        m.shape(),
        m.has(id),
        solved::<L, CF>(m, cf, rows, best, top),
        descends::<L, CF>(m, best, path, id, top),
    ensures
        best[m.root(id).at()] is Some,
        forall|j: int|
            #![trigger best[m.root(id).at()]->0.node.kids()[j]]
            0 <= j < best[m.root(id).at()]->0.node.kids().len() ==> descends::<L, CF>(
                m,
                best,
                path.insert(m.root(id).0),
                best[m.root(id).at()]->0.node.kids()[j],
                top,
            ),
{
    let r = m.root(id);
    assert(m.root(id) == m.roots[id.at()]);
    assert(m.root(r) == r);
    assert(Id(r.0) == r);
    lemma_pick_price::<L, CF>(m, cf, rows, best, top, r.at());
}

/// A tree whose children have the best costs has the best cost.
proof fn lemma_cost_rank<L: Language, CF: CostFunction<L>>(
    m: Model<L>,
    cf: &CF,
    rows: Seq<Seq<u64>>,
    best: Seq<Option<Pick<CF::Cost, L>>>,
    top: nat,
    id: Id,
    expr: Expr<L>,
)
    requires
        m.shape(),
        m.has(id),
        solved::<L, CF>(m, cf, rows, best, top),
        best[m.root(id).at()] is Some,
        expr.node == best[m.root(id).at()]->0.node,
        expr.children@.len() == expr.node.kids().len(),
        forall|j: int|
            #![trigger expr.children@[j]]
            0 <= j < expr.children@.len() ==> CF::rank(cost_of(cf, expr.children@[j]))
                == best_rank::<L, CF>(m, best, expr.node.kids()[j]),
    ensures
        CF::rank(cost_of(cf, expr)) == best_rank::<L, CF>(m, best, id),
{
    let node = expr.node;
    lemma_pick_price::<L, CF>(m, cf, rows, best, top, m.root(id).at());
    let (low, high) = (kid_costs(m, best, node), part_costs(cf, expr));
    assert forall|j: int|
        #![trigger low[j]]
        #![trigger high[j]]
        0 <= j < low.len() implies CF::rank(low[j]) == CF::rank(high[j]) by {
        assert(CF::rank(cost_of(cf, expr.children@[j])) == best_rank::<L, CF>(
            m,
            best,
            node.kids()[j],
        ));
    }
    assert(cheaper::<L, CF>(low, high));
    assert(cheaper::<L, CF>(high, low));
    assert(CF::rank(cf.price(node, low)) <= CF::rank(cf.price(node, high)));
    assert(CF::rank(cf.price(node, high)) <= CF::rank(cf.price(node, low)));
}

/// The text of an expression is its node over the texts of its children, in
/// their order.
pub proof fn law_text_of_expression<L: Language>(expr: Expr<L>)
    ensures
        expr.text() == expr.node.rendered(expr.children@.map_values(|kid: Expr<L>| kid.text())),
{
    assert(expr.part_texts() =~= expr.children@.map_values(|kid: Expr<L>| kid.text()));
}

/// The cost of an expression is that of its node over the costs of its
/// children, in their order.
pub proof fn law_cost_of_expression<L: Language, CF: CostFunction<L>>(cf: &CF, expr: Expr<L>)
    ensures
        cost_of(cf, expr) == cf.price(
            expr.node,
            expr.children@.map_values(|kid: Expr<L>| cost_of(cf, kid)),
        ),
{
    assert(part_costs(cf, expr) =~= expr.children@.map_values(|kid: Expr<L>| cost_of(cf, kid)));
}

} // verus!
