//! The mathematical model of an e-graph: which ids are equivalent, which
//! e-nodes every class holds, which e-nodes refer to it, what the hashcons
//! table knows and which classes wait for congruence repair.

use super::lang::{lawful, lemma_same_node, lemma_same_op, lemma_with_kids, Id, Language};
use super::unionfind::{canonical_map, joined};
use vstd::prelude::*;

verus! {

/// The state of an e-graph, all tables indexed by id. The tables of an
/// absorbed class are empty.
#[verifier::ext_equal]
#[verifier::reject_recursive_types(L)]
pub struct Model<L: Language> {
    /// The canonical id of every id.
    pub roots: Seq<Id>,
    /// The e-nodes of every class.
    pub nodes: Seq<Seq<L>>,
    /// The e-nodes that refer to a class, each with the id of its owner.
    pub parents: Seq<Seq<(L, Id)>>,
    /// Canonical e-node to class id.
    pub memo: Map<L, Id>,
    /// Classes whose congruence may be stale.
    pub pending: Seq<Id>,
}

/// All of `ids` are below `n`.
pub open spec fn in_range(n: nat, ids: Seq<Id>) -> bool {
    forall|i: int| 0 <= i < ids.len() ==> (#[trigger] ids[i]).at() < n
}

/// The canonical ids of `ids`.
pub open spec fn canon_ids(roots: Seq<Id>, ids: Seq<Id>) -> Seq<Id> {
    Seq::new(ids.len(), |i: int| roots[ids[i].at()])
}

/// The canonical form of a node: its operator over canonical children.
pub open spec fn canon<L: Language>(roots: Seq<Id>, node: L) -> L {
    node.with_kids(canon_ids(roots, node.kids()))
}

/// One of `nodes` has the canonical form `form`.
pub open spec fn holds_node<L: Language>(roots: Seq<Id>, nodes: Seq<L>, form: L) -> bool {
    exists|a: int| 0 <= a < nodes.len() && canon(roots, #[trigger] nodes[a]) == form
}

/// One of `entries` has the canonical form `form` and an owner in class `k`.
pub open spec fn holds_entry<L: Language>(
    roots: Seq<Id>,
    entries: Seq<(L, Id)>,
    form: L,
    k: Id,
) -> bool {
    exists|e: int|
        0 <= e < entries.len() && canon(roots, (#[trigger] entries[e]).0) == form
            && roots[entries[e].1.at()] == k
}

/// A child of `node` is in class `k`.
pub open spec fn mentions<L: Language>(roots: Seq<Id>, node: L, k: Id) -> bool {
    exists|j: int| 0 <= j < node.kids().len() && roots[(#[trigger] node.kids()[j]).at()] == k
}

/// Every child of `node` is equivalent to an id below `i`.
pub open spec fn older_kids<L: Language>(roots: Seq<Id>, node: L, i: int) -> bool {
    forall|j: int|
        0 <= j < node.kids().len() ==> has_older(roots, (#[trigger] node.kids()[j]), i)
}

/// `id` is equivalent to an id below `i`.
pub open spec fn has_older(roots: Seq<Id>, id: Id, i: int) -> bool {
    exists|d: int| 0 <= d < i && d < roots.len() && #[trigger] roots[d] == roots[id.at()]
}

/// Whatever is equal under `fine` is equal under `coarse`.
pub open spec fn coarsens(fine: Seq<Id>, coarse: Seq<Id>) -> bool {
    &&& fine.len() <= coarse.len()
    &&& forall|i: int, j: int|
        #![trigger fine[i], fine[j]]
        0 <= i < fine.len() && 0 <= j < fine.len() && fine[i] == fine[j] ==> coarse[i] == coarse[j]
}

impl<L: Language> Model<L> {
    /// Number of ids handed out.
    pub open spec fn len(self) -> nat {
        self.roots.len()
    }

    /// `id` was handed out.
    pub open spec fn has(self, id: Id) -> bool {
        id.at() < self.roots.len()
    }

    /// The canonical id of `id`.
    pub open spec fn root(self, id: Id) -> Id {
        self.roots[id.at()]
    }

    /// The e-nodes of the class of `id`.
    pub open spec fn class(self, id: Id) -> Seq<L> {
        self.nodes[self.root(id).at()]
    }

    /// `node` refers to ids of this graph only.
    pub open spec fn knows(self, node: L) -> bool {
        in_range(self.len(), node.kids())
    }

    /// All tables have one row for every id, refer to known ids only, and are
    /// empty for ids that represent no class.
    pub open spec fn shape(self) -> bool {
        &&& canonical_map(self.roots)
        &&& self.len() <= u32::MAX + 1
        &&& self.nodes.len() == self.len()
        &&& self.parents.len() == self.len()
        &&& forall|i: int|
            #![trigger self.nodes[i]]
            0 <= i < self.len() && self.roots[i] != Id(i as u32) ==> self.nodes[i].len() == 0
        &&& forall|i: int|
            #![trigger self.parents[i]]
            0 <= i < self.len() && self.roots[i] != Id(i as u32) ==> self.parents[i].len() == 0
        &&& forall|i: int, a: int|
            #![trigger self.nodes[i][a]]
            0 <= i < self.len() && 0 <= a < self.nodes[i].len() ==> self.knows(self.nodes[i][a])
        &&& forall|i: int, e: int|
            #![trigger self.parents[i][e]]
            0 <= i < self.len() && 0 <= e < self.parents[i].len() ==> self.entry_ok(
                self.parents[i][e],
            )
        &&& forall|key: L| #[trigger]
            self.memo.contains_key(key) ==> self.knows(key) && self.has(self.memo[key])
        &&& in_range(self.len(), self.pending)
    }

    /// The first of `n` classes that holds a node of the canonical form `form`.
    pub open spec fn first_holder(self, form: L, n: nat) -> Option<Id>
        decreases n,
    {
        if n == 0 {
            None
        } else {
            match self.first_holder(form, (n - 1) as nat) {
                Some(id) => Some(id),
                None => if holds_node(self.roots, self.nodes[n - 1], form) {
                    Some(Id((n - 1) as u32))
                } else {
                    None
                },
            }
        }
    }

    /// The class of a node: the one that the hashcons table has for it, else
    /// the first one that holds it.
    pub open spec fn looked_up(self, node: L) -> Option<Id> {
        let form = canon(self.roots, node);
        if self.memo.contains_key(form) {
            Some(self.root(self.memo[form]))
        } else {
            self.first_holder(form, self.len())
        }
    }

    /// A class holds the node, up to canonical form.
    pub open spec fn has_node(self, node: L) -> bool {
        exists|id: Id|
            self.has(id) && #[trigger] holds_node(
                self.roots,
                self.class(id),
                canon(self.roots, node),
            )
    }

    /// All nodes, parent entries and hashcons entries refer to known ids only.
    pub open spec fn in_bounds(self) -> bool {
        &&& self.len() <= u32::MAX + 1
        &&& self.nodes.len() == self.len()
        &&& self.parents.len() == self.len()
        &&& forall|i: int, a: int|
            #![trigger self.nodes[i][a]]
            0 <= i < self.len() && 0 <= a < self.nodes[i].len() ==> self.knows(self.nodes[i][a])
        &&& forall|i: int, e: int|
            #![trigger self.parents[i][e]]
            0 <= i < self.len() && 0 <= e < self.parents[i].len() ==> self.entry_ok(
                self.parents[i][e],
            )
        &&& forall|key: L| #[trigger]
            self.memo.contains_key(key) ==> self.has(self.memo[key])
    }

    /// A parent entry refers to known ids only.
    pub open spec fn entry_ok(self, entry: (L, Id)) -> bool {
        self.knows(entry.0) && self.has(entry.1)
    }

    /// Every id's class holds an e-node over older ids, so every class stands
    /// for at least one finite term.
    pub open spec fn grounded(self) -> bool {
        forall|i: int| 0 <= i < self.len() ==> #[trigger] self.grounded_at(i)
    }

    pub open spec fn grounded_at(self, i: int) -> bool {
        exists|a: int|
            0 <= a < self.class(Id(i as u32)).len() && older_kids(
                self.roots,
                #[trigger] self.class(Id(i as u32))[a],
                i,
            )
    }

    /// Every e-node is listed, up to canonical form, as a parent of each of
    /// its children: in the table, or in `extra` for children in the class of
    /// `home`.
    pub open spec fn registered(self, home: Id, extra: Seq<(L, Id)>) -> bool {
        forall|k: int, a: int, j: int|
            #![trigger self.nodes[k][a].kids()[j]]
            0 <= k < self.len() && 0 <= a < self.nodes[k].len() && 0 <= j
                < self.nodes[k][a].kids().len() ==> self.listed(
                home,
                extra,
                self.nodes[k][a],
                Id(k as u32),
                self.nodes[k][a].kids()[j],
            )
    }

    pub open spec fn listed(
        self,
        home: Id,
        extra: Seq<(L, Id)>,
        node: L,
        owner: Id,
        child: Id,
    ) -> bool {
        let form = canon(self.roots, node);
        ||| holds_entry(self.roots, self.parents[self.root(child).at()], form, owner)
        ||| self.root(child) == self.root(home) && holds_entry(self.roots, extra, form, owner)
    }

    /// A parent entry of class `c` is real: it refers to the class, and its
    /// owner holds the node.
    pub open spec fn real_entry(self, c: Id, entry: (L, Id)) -> bool {
        &&& mentions(self.roots, entry.0, c)
        &&& holds_node(self.roots, self.class(entry.1), canon(self.roots, entry.0))
    }

    /// All parent entries are real.
    pub open spec fn owned(self) -> bool {
        forall|c: int, e: int|
            #![trigger self.parents[c][e]]
            0 <= c < self.len() && 0 <= e < self.parents[c].len() ==> self.real_entry(
                Id(c as u32),
                self.parents[c][e],
            )
    }

    /// All of `extra` are real parent entries of the class of `home`.
    pub open spec fn owned_extra(self, home: Id, extra: Seq<(L, Id)>) -> bool {
        forall|e: int|
            #![trigger extra[e]]
            0 <= e < extra.len() ==> self.entry_ok(extra[e]) && self.real_entry(
                self.root(home),
                extra[e],
            )
    }

    /// What the hashcons table maps to a class is in that class.
    pub open spec fn sound(self) -> bool {
        forall|key: L| #[trigger]
            self.memo.contains_key(key) ==> holds_node(
                self.roots,
                self.class(self.memo[key]),
                canon(self.roots, key),
            )
    }

    /// A child of `node` is in a class that waits for repair.
    pub open spec fn dirty(self, node: L) -> bool {
        exists|p: int|
            0 <= p < self.pending.len() && mentions(
                self.roots,
                node,
                self.root(#[trigger] self.pending[p]),
            )
    }

    /// The hashcons table finds the canonical form of `node` in class `k`.
    pub open spec fn interned(self, node: L, k: Id) -> bool {
        let form = canon(self.roots, node);
        self.memo.contains_key(form) && self.root(self.memo[form]) == k
    }

    /// A parent entry whose node is canonical is interned in the class that owns
    /// it.
    pub open spec fn placed_entry(self, entry: (L, Id)) -> bool {
        canon(self.roots, entry.0) == entry.0 ==> self.interned(entry.0, self.root(entry.1))
    }

    /// All canonical parent entries are interned, those in `extra` among them.
    pub open spec fn placed(self, extra: Seq<(L, Id)>) -> bool {
        &&& forall|c: int, e: int|
            #![trigger self.parents[c][e]]
            0 <= c < self.len() && 0 <= e < self.parents[c].len() ==> self.placed_entry(
                self.parents[c][e],
            )
        &&& forall|e: int|
            #![trigger extra[e]]
            0 <= e < extra.len() ==> self.placed_entry(extra[e])
    }

    /// Every e-node is interned, or a class it refers to waits for repair, or
    /// it is among the entries `todo`.
    pub open spec fn covered(self, todo: Seq<(L, Id)>) -> bool {
        forall|k: int, a: int|
            #![trigger self.nodes[k][a]]
            0 <= k < self.len() && 0 <= a < self.nodes[k].len() ==> self.covers(
                todo,
                self.nodes[k][a],
                Id(k as u32),
            )
    }

    pub open spec fn covers(self, todo: Seq<(L, Id)>, node: L, k: Id) -> bool {
        ||| self.interned(node, k)
        ||| self.dirty(node)
        ||| holds_entry(self.roots, todo, canon(self.roots, node), k)
    }

    /// The invariant of an e-graph during repair: `extra` are parent entries
    /// taken out of the class of `home`, `todo` those still to be re-interned.
    #[verifier::opaque]
    pub open spec fn consistent_with(
        self,
        home: Id,
        extra: Seq<(L, Id)>,
        todo: Seq<(L, Id)>,
    ) -> bool {
        &&& self.grounded()
        &&& self.registered(home, extra)
        &&& self.owned()
        &&& self.owned_extra(home, extra)
        &&& self.sound()
        &&& self.covered(todo)
        &&& self.placed(extra)
    }

    /// The invariant of an e-graph between operations.
    pub open spec fn consistent(self) -> bool {
        self.consistent_with(Id(0), Seq::empty(), Seq::empty())
    }

    /// The model after class `absorbed` joined class `survivor`.
    pub open spec fn merged(self, survivor: Id, absorbed: Id) -> Model<L> {
        let (a, b) = (survivor.at(), absorbed.at());
        Model {
            roots: joined(self.roots, survivor, absorbed),
            nodes: self.nodes.update(a, self.nodes[a] + self.nodes[b]).update(b, Seq::empty()),
            parents: self.parents.update(a, self.parents[a] + self.parents[b]).update(
                b,
                Seq::empty(),
            ),
            memo: self.memo,
            pending: self.pending.push(survivor),
        }
    }

    /// The parent entries that a new e-node adds to every class: one for each
    /// of the first `upto` children in that class.
    pub open spec fn with_entries(
        parents: Seq<Seq<(L, Id)>>,
        node: L,
        owner: Id,
        upto: nat,
    ) -> Seq<Seq<(L, Id)>>
        decreases upto,
    {
        if upto == 0 {
            parents
        } else {
            let rest = Self::with_entries(parents, node, owner, (upto - 1) as nat);
            let c = node.kids()[upto - 1].at();
            rest.update(c, rest[c].push((node, owner)))
        }
    }

    /// The model after the canonical e-node `node` got a class of its own.
    pub open spec fn added(self, node: L) -> Model<L> {
        let id = Id(self.len() as u32);
        Model {
            roots: self.roots.push(id),
            nodes: self.nodes.push(seq![node]),
            parents: Self::with_entries(
                self.parents.push(Seq::empty()),
                node,
                id,
                node.kids().len(),
            ),
            memo: self.memo.insert(node, id),
            pending: self.pending,
        }
    }
}

/// Canonical forms are equal exactly when the operator is the same and the
/// children are pairwise equivalent.
pub proof fn lemma_canon_eq<L: Language>(roots: Seq<Id>, x: L, y: L)
    requires
        lawful::<L>(),
    ensures
        canon(roots, x) == canon(roots, y) <==> x.same_op(&y) && canon_ids(roots, x.kids())
            == canon_ids(roots, y.kids()),
{
    let (xs, ys) = (canon_ids(roots, x.kids()), canon_ids(roots, y.kids()));
    let (cx, cy) = (canon(roots, x), canon(roots, y));
    lemma_with_kids(&x, xs);
    lemma_with_kids(&y, ys);
    lemma_same_node(&cx, &cy);
    lemma_same_op(&x, &cx, &cy);
    lemma_same_op(&x, &cy, &y);
    lemma_same_op(&cx, &x, &y);
    lemma_same_op(&cx, &y, &cy);
}

/// Merging more keeps equal canonical forms equal.
pub proof fn lemma_canon_coarsens<L: Language>(fine: Seq<Id>, coarse: Seq<Id>, x: L, y: L)
    requires
        lawful::<L>(),
        coarsens(fine, coarse),
        in_range(fine.len(), x.kids()),
        in_range(fine.len(), y.kids()),
        canon(fine, x) == canon(fine, y),
    ensures
        canon(coarse, x) == canon(coarse, y),
{
    lemma_canon_eq(fine, x, y);
    lemma_canon_eq(coarse, x, y);
    assert(canon_ids(fine, x.kids()).len() == canon_ids(fine, y.kids()).len());
    assert(canon_ids(coarse, x.kids()) =~= canon_ids(coarse, y.kids())) by {
        assert forall|i: int| 0 <= i < x.kids().len() implies canon_ids(coarse, x.kids())[i]
            == canon_ids(coarse, y.kids())[i] by {
            let (p, q) = (x.kids()[i], y.kids()[i]);
            assert(canon_ids(fine, x.kids())[i] == canon_ids(fine, y.kids())[i]);
            assert(fine[p.at()] == fine[q.at()]);
        }
    }
}

/// The canonical form of a canonical form is itself.
pub proof fn lemma_canon_twice<L: Language>(roots: Seq<Id>, x: L)
    requires
        lawful::<L>(),
        canonical_map(roots),
        in_range(roots.len(), x.kids()),
    ensures
        canon(roots, canon(roots, x)) == canon(roots, x),
        in_range(roots.len(), canon(roots, x).kids()),
        canon(roots, x).kids() == canon_ids(roots, x.kids()),
        x.same_op(&canon(roots, x)),
{
    let ids = canon_ids(roots, x.kids());
    lemma_with_kids(&x, ids);
    assert(canon_ids(roots, ids) =~= ids);
    lemma_canon_eq(roots, x, canon(roots, x));
}

/// Children that are canonical already stay what they are.
pub proof fn lemma_canon_same<L: Language>(roots: Seq<Id>, x: L)
    requires
        lawful::<L>(),
        canon_ids(roots, x.kids()) == x.kids(),
    ensures
        canon(roots, x) == x,
{
    lemma_with_kids(&x, x.kids());
    lemma_same_node(&x, &canon(roots, x));
}

/// Joining two classes coarsens.
pub proof fn lemma_joined_coarsens(roots: Seq<Id>, survivor: Id, absorbed: Id)
    ensures
        coarsens(roots, joined(roots, survivor, absorbed)),
{
}

/// Coarsening is transitive.
pub proof fn lemma_coarsens_trans(a: Seq<Id>, b: Seq<Id>, c: Seq<Id>)
    requires
        coarsens(a, b),
        coarsens(b, c),
    ensures
        coarsens(a, c),
{
    assert forall|i: int, j: int|
        #![trigger a[i], a[j]]
        0 <= i < a.len() && 0 <= j < a.len() && a[i] == a[j] implies c[i] == c[j] by {
        assert(b[i] == b[j]);
    }
}

/// What the first holder of a form is.
pub proof fn lemma_first_holder<L: Language>(m: Model<L>, form: L, n: nat)
    requires
        m.shape(),
        n <= m.len(),
    ensures
        match m.first_holder(form, n) {
            Some(id) => {
                &&& id.at() < n
                &&& m.root(id) == id
                &&& holds_node(m.roots, m.nodes[id.at()], form)
                &&& forall|i: int|
                    #![trigger m.nodes[i]]
                    0 <= i < id.at() ==> !holds_node(m.roots, m.nodes[i], form)
            },
            None => forall|i: int|
                #![trigger m.nodes[i]]
                0 <= i < n ==> !holds_node(m.roots, m.nodes[i], form),
        },
    decreases n,
{
    if n > 0 {
        lemma_first_holder(m, form, (n - 1) as nat);
        let i = n - 1;
        if m.first_holder(form, (n - 1) as nat) is None && holds_node(m.roots, m.nodes[i], form) {
            assert(m.nodes[i].len() > 0);
            assert(m.roots[i] == Id(i as u32));
        }
    }
}

/// A node that is looked up is found exactly where a class holds it.
pub proof fn lemma_looked_up<L: Language>(m: Model<L>, node: L)
    requires
        lawful::<L>(),
        m.shape(),
        m.sound(),
        m.knows(node),
    ensures
        m.looked_up(node) is Some <==> m.has_node(node),
        m.looked_up(node) matches Some(id) ==> {
            &&& m.has(id)
            &&& m.root(id) == id
            &&& holds_node(m.roots, m.class(id), canon(m.roots, node))
        },
{
    let form = canon(m.roots, node);
    lemma_canon_twice(m.roots, node);
    lemma_first_holder(m, form, m.len());
    if m.memo.contains_key(form) {
        let id = m.memo[form];
        assert(m.has(id));
        assert(m.root(m.root(id)) == m.root(id));
        assert(holds_node(m.roots, m.class(id), canon(m.roots, form)));
        assert(m.class(m.root(id)) == m.class(id));
        assert(holds_node(m.roots, m.class(m.root(id)), form));
    } else if let Some(id) = m.first_holder(form, m.len()) {
        assert(m.class(id) == m.nodes[id.at()]);
        assert(holds_node(m.roots, m.class(id), form));
    }
    if m.has_node(node) && !m.memo.contains_key(form) {
        let id = choose|id: Id|
            m.has(id) && #[trigger] holds_node(m.roots, m.class(id), canon(m.roots, node));
        assert(m.has(m.root(id)));
        assert(m.class(id) == m.nodes[m.root(id).at()]);
    }
}

} // verus!
