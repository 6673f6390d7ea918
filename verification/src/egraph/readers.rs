//! Read-only access to an e-graph.

use super::graph::{overlay, write_children};
use super::lang::{copy_node, equal_nodes, lawful, lemma_key, Id, Language};
use super::model::{
    canon, canon_ids, holds_node, lemma_canon_twice, lemma_first_holder, lemma_looked_up, Model,
};
use super::{ClassData, EGraph};
use vstd::prelude::*;

verus! {

/// The first of `nodes` with the operator of `template`.
pub open spec fn first_match<L: Language>(nodes: Seq<L>, template: L) -> Option<L>
    decreases nodes.len(),
{
    if nodes.len() == 0 {
        None
    } else if nodes[0].same_op(&template) {
        Some(nodes[0])
    } else {
        first_match(nodes.drop_first(), template)
    }
}

/// The first match is one of the nodes, with the operator of the template, and
/// none before it has that operator.
pub proof fn lemma_first_match<L: Language>(nodes: Seq<L>, template: L) -> (a: int)
    requires
        first_match(nodes, template) is Some,
    ensures
        0 <= a < nodes.len(),
        first_match(nodes, template) == Some(nodes[a]),
        nodes[a].same_op(&template),
        forall|b: int| #![trigger nodes[b]] 0 <= b < a ==> !nodes[b].same_op(&template),
    decreases nodes.len(),
{
    if nodes[0].same_op(&template) {
        0
    } else {
        let rest = nodes.drop_first();
        let a = lemma_first_match(rest, template);
        assert forall|b: int| #![trigger nodes[b]] 0 <= b < a + 1 implies !nodes[b].same_op(
            &template,
        ) by {
            if b > 0 {
                assert(rest[b - 1] == nodes[b]);
            }
        }
        a + 1
    }
}

/// The classes among the first `n` ids, each with its e-nodes, in the order of
/// their ids.
pub open spec fn listing<L: Language>(m: Model<L>, n: nat) -> Seq<(Id, Seq<L>)>
    decreases n,
{
    if n == 0 {
        Seq::empty()
    } else {
        let rest = listing(m, (n - 1) as nat);
        let id = Id((n - 1) as u32);
        if m.root(id) == id {
            rest.push((id, m.nodes[n - 1]))
        } else {
            rest
        }
    }
}

/// The contents of a list of classes.
pub open spec fn listed<L>(list: Seq<(Id, Vec<L>)>) -> Seq<(Id, Seq<L>)> {
    Seq::new(list.len(), |i: int| (list[i].0, list[i].1@))
}

/// How many e-nodes the first `n` classes hold.
pub open spec fn node_count<L: Language>(m: Model<L>, n: nat) -> nat
    decreases n,
{
    if n == 0 {
        0
    } else {
        node_count(m, (n - 1) as nat) + m.nodes[n - 1].len()
    }
}

/// `count` as a `usize` shows it, which stops at its maximum.
pub open spec fn capped(count: nat) -> usize {
    if count < usize::MAX {
        count as usize
    } else {
        usize::MAX
    }
}

/// A borrowed, read-only view of a single e-class, passed to the comparison
/// callback of [`EGraph::compare_classes`].
pub struct ClassView<'a, L: Language, N: ClassData> {
    /// All e-nodes proven equal in this class.
    pub nodes: &'a [L],
    /// The class's analysis data.
    pub data: &'a N::Data,
}

impl<L: Language, N: ClassData> EGraph<L, N> {
    /// `view` shows the class of `id`.
    pub open spec fn shows(&self, id: Id, view: ClassView<'_, L, N>) -> bool {
        view.nodes@ == self.model().class(id) && *view.data == self.class_data(
            self.model().root(id),
        )
    }

    /// Read-only view of the e-nodes in `id`'s class (borrow, no clone).
    pub fn nodes(&self, id: Id) -> (nodes: &[L])
        requires
            self.wf(),
            self.model().has(id),
        ensures
            nodes@ == self.model().class(id),
            nodes@.len() > 0,
    {
        proof {
            self.lemma_class_not_empty(id);
        }
        let root = self.find_immut(id);
        self.classes[root.0 as usize].as_ref().unwrap().nodes.as_slice()
    }

    /// A class is never empty.
    pub proof fn lemma_class_not_empty(&self, id: Id)
        requires
            self.wf(),
            self.model().has(id),
        ensures
            self.model().class(id).len() > 0,
    {
        reveal(Model::consistent_with);
        assert(self.model().grounded_at(id.at()));
        assert(Id(id.at() as u32) == id);
    }

    /// Read-only access to a class's analysis data.
    pub fn data(&self, id: Id) -> (data: &N::Data)
        requires
            self.wf(),
            self.model().has(id),
        ensures
            *data == self.class_data(self.model().root(id)),
    {
        let root = self.find_immut(id);
        &self.classes[root.0 as usize].as_ref().unwrap().data
    }

    /// The canonical form of `node`.
    pub(crate) fn canonical_form(&self, node: &L) -> (form: L)
        requires
            self.safe(),
            self.model().knows(*node),
        ensures
            form == canon(self.model().roots, *node),
    {
        proof {
            self.lemma_safe();
        }
        let ghost roots = self.model().roots;
        let mut form = copy_node(node);
        let mut ids: Vec<Id> = Vec::new();
        let mut i: usize = 0;
        while i < node.children().len()
            invariant
                self.safe(),
                roots == self.model().roots,
                self.model().knows(*node),
                i <= node.kids().len(),
                ids@ == canon_ids(roots, node.kids().take(i as int)),
            decreases node.kids().len() - i,
        {
            let child = node.children()[i];
            assert(node.kids()[i as int] == child);
            let root = self.find_immut(child);
            ids.push(root);
            i = i + 1;
            assert(ids@ =~= canon_ids(roots, node.kids().take(i as int)));
        }
        assert(overlay(node.kids(), ids@) =~= canon_ids(roots, node.kids()));
        write_children(&mut form, &ids);
        form
    }

    /// The first class that holds a node of the canonical form `form`.
    pub(crate) fn search(&self, form: &L) -> (found: Option<Id>)
        requires
            self.safe(),
        ensures
            found == self.model().first_holder(*form, self.model().len()),
    {
        let ghost m = self.model();
        proof {
            self.lemma_safe();
        }
        let mut i: usize = 0;
        while i < self.classes.len()
            invariant
                self.safe(),
                lawful::<L>(),
                m == self.model(),
                m.shape(),
                m.len() == self.classes@.len(),
                i <= m.len(),
                m.first_holder(*form, i as nat) is None,
            decreases m.len() - i,
        {
            if let Some(class) = &self.classes[i] {
                assert(m.nodes[i as int] == class.nodes@);
                let mut a: usize = 0;
                while a < class.nodes.len()
                    invariant
                        self.safe(),
                        lawful::<L>(),
                        m == self.model(),
                        m.shape(),
                        i < m.len(),
                        m.first_holder(*form, i as nat) is None,
                        m.nodes[i as int] == class.nodes@,
                        a <= class.nodes@.len(),
                        forall|b: int|
                            #![trigger m.nodes[i as int][b]]
                            0 <= b < a ==> canon(m.roots, m.nodes[i as int][b]) != *form,
                    decreases class.nodes@.len() - a,
                {
                    assert(m.knows(m.nodes[i as int][a as int]));
                    let own = self.canonical_form(&class.nodes[a]);
                    if equal_nodes(&own, form) {
                        proof {
                            assert(canon(m.roots, m.nodes[i as int][a as int]) == *form);
                            assert(holds_node(m.roots, m.nodes[i as int], *form));
                            assert(m.first_holder(*form, (i + 1) as nat) == Some(Id(i as u32)));
                            lemma_holder_stays(m, *form, (i + 1) as nat, m.len());
                        }
                        return Some(Id(i as u32));
                    }
                    a = a + 1;
                }
            }
            assert(!holds_node(m.roots, m.nodes[i as int], *form));
            i = i + 1;
        }
        None
    }

    /// The class of the canonical e-node `form`: the one that the hashcons
    /// table has for it, else the first one that holds it. While no class
    /// waits for repair, the table knows all nodes.
    pub(crate) fn class_of_form(&self, form: &L) -> (found: Option<Id>)
        requires
            self.wf(),
            self.model().knows(*form),
            canon(self.model().roots, *form) == *form,
        ensures
            found == self.model().looked_up(*form),
    {
        let ghost m = self.model();
        proof {
            self.lemma_safe();
            lemma_key::<L>();
        }
        if let Some(id) = self.memo.get(form) {
            let id = *id;
            assert(m.memo.contains_key(*form) && m.memo[*form] == id);
            return Some(self.find_immut(id));
        }
        assert(!m.memo.contains_key(*form));
        if self.pending.len() > 0 {
            return self.search(form);
        }
        proof {
            reveal(Model::consistent_with);
            lemma_first_holder(m, *form, m.len());
            if let Some(id) = m.first_holder(*form, m.len()) {
                let a = choose|a: int|
                    0 <= a < m.nodes[id.at()].len() && canon(m.roots, #[trigger] m.nodes[id.at()][a])
                        == *form;
                assert(m.covers(Seq::empty(), m.nodes[id.at()][a], Id(id.at() as u32)));
                assert(false);
            }
        }
        None
    }

    /// Canonical class id of an e-node that was added, or `None` if that node
    /// was never added. Canonicalizes `node`'s children and inserts nothing:
    /// the inverse of `add` without the side effect.
    pub fn lookup(&self, node: &L) -> (found: Option<Id>)
        requires
            self.wf(),
            self.model().knows(*node),
        ensures
            found == self.model().looked_up(*node),
            found is Some <==> self.model().has_node(*node),
            found is Some ==> self.model().has(found->0) && holds_node(
                self.model().roots,
                self.model().class(found->0),
                canon(self.model().roots, *node),
            ),
    {
        proof {
            self.lemma_safe();
            lemma_canon_twice(self.model().roots, *node);
            reveal(Model::consistent_with);
            lemma_looked_up(self.model(), *node);
        }
        let form = self.canonical_form(node);
        self.class_of_form(&form)
    }

    /// Find the e-node in `id`'s class that matches `template` (same operator
    /// and arity, via [`Language::matches`]). Returns the first such stored
    /// node, or `None`.
    pub fn match_node(&self, id: Id, template: &L) -> (found: Option<&L>)
        requires
            self.wf(),
            self.model().has(id),
        ensures
            (match found {
                Some(node) => Some(*node),
                None => None,
            }) == first_match(self.model().class(id), *template),
            match found {
                Some(node) => exists|a: int|
                    {
                        &&& 0 <= a < self.model().class(id).len()
                        &&& *node == #[trigger] self.model().class(id)[a]
                        &&& node.same_op(template)
                        &&& forall|b: int|
                            0 <= b < a ==> !(#[trigger] self.model().class(id)[b]).same_op(template)
                    },
                None => forall|b: int|
                    0 <= b < self.model().class(id).len() ==> !(#[trigger] self.model().class(
                        id,
                    )[b]).same_op(template),
            },
    {
        proof {
            law_match_is_first(self.model().class(id), *template);
        }
        let nodes = self.nodes(id);
        let mut i: usize = 0;
        assert(nodes@.skip(0) =~= nodes@);
        while i < nodes.len()
            invariant
                i <= nodes.len(),
                nodes@ == self.model().class(id),
                first_match(nodes@, *template) == first_match(nodes@.skip(i as int), *template),
            decreases nodes.len() - i,
        {
            let ghost rest = nodes@.skip(i as int);
            assert(rest[0] == nodes@[i as int]);
            if nodes[i].matches(template) {
                proof {
                    let class = self.model().class(id);
                    let a = lemma_first_match(class, *template);
                    assert(class[a] == nodes@[i as int]);
                    assert forall|b: int| 0 <= b < a implies !(#[trigger] self.model().class(
                        id,
                    )[b]).same_op(template) by {
                        assert(!class[b].same_op(template));
                    }
                }
                return Some(&nodes[i]);
            }
            i = i + 1;
            assert(rest.drop_first() =~= nodes@.skip(i as int));
        }
        assert(nodes@.skip(i as int).len() == 0);
        None
    }

    /// Compare the classes of `a` and `b` with a caller-supplied function.
    ///
    /// If `a` and `b` are already the same canonical class, the result is
    /// `Equal` and `cmp` is not called. Otherwise `cmp` is called with each
    /// class's e-nodes and analysis data.
    ///
    /// This is a heuristic comparison, not equality in the graph: for that,
    /// compare [`canonical_id`](Self::canonical_id).
    pub fn compare_classes<F>(&self, a: Id, b: Id, cmp: F) -> (order: std::cmp::Ordering) where
        F: FnOnce(ClassView<'_, L, N>, ClassView<'_, L, N>) -> std::cmp::Ordering,

        requires
            self.wf(),
            self.model().has(a),
            self.model().has(b),
            self.model().root(a) != self.model().root(b) ==> forall|
                va: ClassView<'_, L, N>,
                vb: ClassView<'_, L, N>,
            | #[trigger]
                call_requires(cmp, (va, vb)) || !self.shows(a, va) || !self.shows(b, vb),
        ensures
            self.model().root(a) == self.model().root(b) ==> order == std::cmp::Ordering::Equal,
            self.model().root(a) != self.model().root(b) ==> exists|
                va: ClassView<'_, L, N>,
                vb: ClassView<'_, L, N>,
            | #[trigger]
                call_ensures(cmp, (va, vb), order) && self.shows(a, va) && self.shows(b, vb),
    {
        let (ca, cb) = (self.find_immut(a), self.find_immut(b));
        if ca == cb {
            return std::cmp::Ordering::Equal;
        }
        let va = ClassView { nodes: self.nodes(a), data: self.data(a) };
        let vb = ClassView { nodes: self.nodes(b), data: self.data(b) };
        assert(self.shows(a, va) && self.shows(b, vb));
        cmp(va, vb)
    }

    /// Snapshot of the e-graph for visualization: each canonical e-class id
    /// paired with a clone of its e-nodes, in the order of the ids.
    pub fn classes_snapshot(&self) -> (list: Vec<(Id, Vec<L>)>)
        requires
            self.wf(),
        ensures
            listed(list@) == listing(self.model(), self.model().len()),
            list@.len() == class_ids(self.model()).len(),
            forall|c: int|
                #![trigger list@[c]]
                0 <= c < list@.len() ==> list@[c].0 == class_ids(self.model())[c] && list@[c].1@
                    == self.model().nodes[list@[c].0.at()],
    {
        let mut list: Vec<(Id, Vec<L>)> = Vec::new();
        let mut i: usize = 0;
        let ghost m = self.model();
        proof {
            self.lemma_safe();
        }
        assert(listed(list@) =~= Seq::empty());
        while i < self.classes.len()
            invariant
                self.safe(),
                lawful::<L>(),
                m == self.model(),
                m.len() <= u32::MAX + 1,
                m.len() == self.classes@.len(),
                i <= m.len(),
                listed(list@) == listing(m, i as nat),
            decreases self.classes@.len() - i,
        {
            let ghost before = list@;
            let id = Id(i as u32);
            match &self.classes[i] {
                Some(class) => {
                    assert(m.root(id) == id);
                    let nodes = copy_nodes(&class.nodes);
                    list.push((id, nodes));
                    assert(listed(list@) =~= listed(before).push((id, m.nodes[i as int])));
                },
                None => {
                    assert(m.root(id) != id);
                },
            }
            i = i + 1;
        }
        proof {
            law_snapshot_shows_all(m);
            assert forall|c: int| #![trigger list@[c]] 0 <= c < list@.len() implies list@[c].0
                == class_ids(m)[c] && list@[c].1@ == m.nodes[list@[c].0.at()] by {
                assert(listed(list@)[c] == (list@[c].0, list@[c].1@));
            }
        }
        list
    }

    /// Total number of e-nodes across all e-classes.
    pub fn total_nodes(&self) -> (total: usize)
        requires
            self.wf(),
        ensures
            total == capped(node_count(self.model(), self.model().len())),
            self.model().nodes.flatten().len() < usize::MAX ==> total
                == self.model().nodes.flatten().len(),
    {
        let ghost m = self.model();
        proof {
            self.lemma_safe();
            law_total_counts_all_nodes(m);
        }
        let mut total: usize = 0;
        let mut i: usize = 0;
        while i < self.classes.len()
            invariant
                m == self.model(),
                m.nodes.len() == self.classes@.len(),
                i <= m.nodes.len(),
                total == capped(node_count(m, i as nat)),
            decreases self.classes@.len() - i,
        {
            let own: usize = match &self.classes[i] {
                Some(class) => class.nodes.len(),
                None => 0,
            };
            assert(own == m.nodes[i as int].len());
            total = if own <= usize::MAX - total {
                total + own
            } else {
                usize::MAX
            };
            i = i + 1;
        }
        total
    }

    /// Look up an id whose frozen term equals `term`: the oldest such id.
    pub fn find_by_term(&self, term: &str) -> (found: Option<Id>)
        requires
            self.wf(),
        ensures
            match found {
                Some(id) => self.model().has(id) && self.terms()[id.at()] == term@ && forall|i: int|
                    #![trigger self.terms()[i]]
                    0 <= i < id.at() ==> self.terms()[i] != term@,
                None => forall|i: int|
                    #![trigger self.terms()[i]]
                    0 <= i < self.model().len() ==> self.terms()[i] != term@,
            },
    {
        proof {
            self.lemma_safe();
        }
        let wanted: String = term.to_owned();
        let mut i: usize = 0;
        while i < self.term_snapshot.len()
            invariant
                wanted@ == term@,
                i <= self.term_snapshot.len(),
                self.term_snapshot.len() == self.model().len() <= u32::MAX + 1,
                forall|j: int| #![trigger self.terms()[j]] 0 <= j < i ==> self.terms()[j] != term@,
            decreases self.term_snapshot.len() - i,
        {
            if self.term_snapshot[i] == wanted {
                return Some(Id(i as u32));
            }
            i = i + 1;
        }
        None
    }

    /// The first node of `id`'s class. Used by the proof checker to compare
    /// operators and arities.
    pub(crate) fn canonical_node(&self, id: Id) -> (node: Option<L>)
        requires
            self.wf(),
            self.model().has(id),
        ensures
            node == Some(self.model().class(id)[0]),
    {
        proof {
            self.lemma_safe();
        }
        let nodes = self.nodes(id);
        Some(copy_node(&nodes[0]))
    }
}

/// Clones of all nodes.
pub(crate) fn copy_nodes<L: Language>(nodes: &Vec<L>) -> (copy: Vec<L>)
    requires
        lawful::<L>(),
    ensures
        copy@ == nodes@,
{
    let mut copy: Vec<L> = Vec::new();
    let mut i: usize = 0;
    while i < nodes.len()
        invariant
            lawful::<L>(),
            i <= nodes.len(),
            copy@ == nodes@.take(i as int),
        decreases nodes.len() - i,
    {
        copy.push(copy_node(&nodes[i]));
        i = i + 1;
        assert(copy@ =~= nodes@.take(i as int));
    }
    assert(copy@ =~= nodes@);
    copy
}

/// The first holder among some classes is the first one among more.
proof fn lemma_holder_stays<L: Language>(m: Model<L>, form: L, n: nat, more: nat)
    requires
        n <= more,
        m.first_holder(form, n) is Some,
    ensures
        m.first_holder(form, more) == m.first_holder(form, n),
    decreases more,
{
    if n < more {
        lemma_holder_stays(m, form, n, (more - 1) as nat);
    }
}

/// The ids below `n` that represent a class, in their order.
pub open spec fn ids_below<L: Language>(m: Model<L>, n: nat) -> Seq<Id> {
    Seq::new(n, |i: int| Id(i as u32)).filter(|id: Id| m.roots[id.at()] == id)
}

/// The ids that represent a class, in their order.
pub open spec fn class_ids<L: Language>(m: Model<L>) -> Seq<Id> {
    ids_below(m, m.roots.len())
}

proof fn lemma_listing<L: Language>(m: Model<L>, n: nat)
    requires
        n <= m.roots.len() <= u32::MAX + 1,
    ensures
        listing(m, n) == ids_below(m, n).map_values(|id: Id| (id, m.nodes[id.at()])),
        ids_below(m, n).no_duplicates(),
        forall|k: int|
            #![trigger ids_below(m, n)[k]]
            0 <= k < ids_below(m, n).len() ==> ids_below(m, n)[k].at() < n,
        n > 0 ==> ids_below(m, (n - 1) as nat).is_prefix_of(ids_below(m, n)),
    decreases n,
{
    let own = |id: Id| m.roots[id.at()] == id;
    let shown = |id: Id| (id, m.nodes[id.at()]);
    let all = Seq::new(n, |i: int| Id(i as u32));
    let ids = ids_below(m, n);
    reveal(Seq::filter);
    if n == 0 {
        assert(ids.map_values(shown) =~= Seq::empty());
    } else {
        let less = (n - 1) as nat;
        lemma_listing(m, less);
        let some = Seq::new(less, |i: int| Id(i as u32));
        let had = ids_below(m, less);
        assert(all.drop_last() =~= some);
        let id = Id((n - 1) as u32);
        assert(all.last() == id);
        if own(id) {
            assert(ids == had.push(id));
            assert(ids.map_values(shown) =~= had.map_values(shown).push(shown(id)));
            assert forall|a: int, b: int|
                0 <= a < ids.len() && 0 <= b < ids.len() && a != b implies ids[a] != ids[b] by {
                if a < had.len() {
                    assert(had[a].at() < less);
                }
                if b < had.len() {
                    assert(had[b].at() < less);
                }
            }
        }
        assert forall|k: int| #![trigger ids[k]] 0 <= k < ids.len() implies ids[k].at() < n by {
            if k < had.len() {
                assert(had[k].at() < less);
            }
        }
    }
}

/// The number of a class among all: that of its id among the ids that represent
/// one.
pub proof fn lemma_class_number<L: Language>(m: Model<L>, id: Id, n: nat)
    requires
        id.at() < n <= m.roots.len() <= u32::MAX + 1,
        m.roots[id.at()] == id,
    ensures
        listing(m, id.at() as nat).len() < ids_below(m, n).len(),
        ids_below(m, n)[listing(m, id.at() as nat).len() as int] == id,
    decreases n,
{
    lemma_listing(m, n);
    if id.at() == n - 1 {
        let own = |id: Id| m.roots[id.at()] == id;
        let less = (n - 1) as nat;
        lemma_listing(m, less);
        reveal(Seq::filter);
        let all = Seq::new(n, |i: int| Id(i as u32));
        assert(all.drop_last() =~= Seq::new(less, |i: int| Id(i as u32)));
        assert(all.last() == id);
        assert(own(id));
        assert(ids_below(m, n) == ids_below(m, less).push(id));
    } else {
        lemma_class_number(m, id, (n - 1) as nat);
    }
}

/// A snapshot shows every class once, under the id that represents it, with all
/// its e-nodes, and in the order of the ids.
pub proof fn law_snapshot_shows_all<L: Language>(m: Model<L>)
    requires
        m.roots.len() <= u32::MAX + 1,
    ensures
        listing(m, m.roots.len()) == class_ids(m).map_values(|id: Id| (id, m.nodes[id.at()])),
        class_ids(m).no_duplicates(),
        forall|id: Id| #[trigger]
            class_ids(m).contains(id) <==> id.at() < m.roots.len() && m.roots[id.at()] == id,
{
    let own = |id: Id| m.roots[id.at()] == id;
    let all = Seq::new(m.roots.len(), |i: int| Id(i as u32));
    lemma_listing(m, m.roots.len());
    assert(class_ids(m) == all.filter(own));
    assert forall|id: Id| #[trigger]
        class_ids(m).contains(id) <==> id.at() < m.roots.len() && m.roots[id.at()] == id by {
        if class_ids(m).contains(id) {
            let k = choose|k: int| 0 <= k < class_ids(m).len() && class_ids(m)[k] == id;
            assert(ids_below(m, m.roots.len())[k].at() < m.roots.len());
            all.lemma_filter_pred(own, k);
        }
        if id.at() < m.roots.len() && m.roots[id.at()] == id {
            assert(all[id.at()] == id);
            all.lemma_filter_contains(own, id.at());
        }
    }
}

/// How many e-nodes there are: as many as all classes hold together.
pub proof fn law_total_counts_all_nodes<L: Language>(m: Model<L>)
    ensures
        node_count(m, m.nodes.len()) == m.nodes.flatten().len(),
{
    lemma_node_count(m, m.nodes.len());
    assert(m.nodes.take(m.nodes.len() as int) =~= m.nodes);
}

proof fn lemma_node_count<L: Language>(m: Model<L>, n: nat)
    requires
        n <= m.nodes.len(),
    ensures
        node_count(m, n) == m.nodes.take(n as int).flatten().len(),
    decreases n,
{
    if n > 0 {
        let less = (n - 1) as nat;
        lemma_node_count(m, less);
        m.nodes.take(less as int).lemma_flatten_push(m.nodes[n - 1]);
        assert(m.nodes.take(n as int) =~= m.nodes.take(less as int).push(m.nodes[n - 1]));
    }
}

/// The node that matches a template is the first one with its operator, and
/// there is one exactly when some node has that operator.
pub proof fn law_match_is_first<L: Language>(nodes: Seq<L>, template: L)
    ensures
        first_match(nodes, template) is None <==> forall|b: int|
            #![trigger nodes[b]]
            0 <= b < nodes.len() ==> !nodes[b].same_op(&template),
        first_match(nodes, template) is Some ==> exists|a: int|
            #![trigger nodes[a]]
            0 <= a < nodes.len() && first_match(nodes, template) == Some(nodes[a])
                && nodes[a].same_op(&template) && forall|b: int|
                #![trigger nodes[b]]
                0 <= b < a ==> !nodes[b].same_op(&template),
    decreases nodes.len(),
{
    if first_match(nodes, template) is Some {
        let a = lemma_first_match(nodes, template);
        assert(nodes[a].same_op(&template));
    } else if nodes.len() > 0 {
        let rest = nodes.drop_first();
        law_match_is_first(rest, template);
        assert forall|b: int| #![trigger nodes[b]] 0 <= b < nodes.len() implies !nodes[b].same_op(
            &template,
        ) by {
            if b > 0 {
                assert(rest[b - 1] == nodes[b]);
            }
        }
    }
}

/// What a comparison gets to see of a class are all its e-nodes, in the order in
/// which they are stored, and its data.
pub proof fn law_view_shows_class<L: Language, N: ClassData>(
    egraph: &EGraph<L, N>,
    id: Id,
    view: ClassView<'_, L, N>,
)
    ensures
        egraph.shows(id, view) <==> view.nodes@ == egraph.model().nodes[egraph.model().roots[id.at()].at()]
            && *view.data == egraph.class_data(egraph.model().roots[id.at()]),
{
}

} // verus!
