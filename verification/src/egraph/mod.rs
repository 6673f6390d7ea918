//! A minimal e-graph with equality saturation.
//!
//! Core pieces:
//! * Union-find: tracks which e-classes are equivalent.
//! * Hashcons: deduplicates e-nodes (maps a canonical e-node to its e-class).
//! * Deferred rebuild: restores congruence in batches.
//! * Pattern matcher: e-matching for the left-hand sides of rewrite rules.
//! * Extractor: picks the lowest-cost term from an e-class.
//!
//! The engine is generic over any [`Language`].

pub mod applying;
pub mod closure;
pub mod config;
pub mod cost;
pub mod deep;
pub mod drawn;
pub mod driving;
pub mod enumerated;
pub mod explain;
pub mod explained;
pub mod extract;
pub mod forest;
pub mod forms;
pub mod freshness;
pub mod graph;
pub mod growth;
pub mod hooks;
pub mod instantiate;
pub mod invariants;
pub mod labels;
pub mod lang;
pub mod laws;
pub mod matching;
pub mod meaning;
pub mod measures;
pub mod mermaid;
pub mod model;
pub mod passes;
pub mod readers;
pub mod rebuild;
pub mod repair;
pub mod rest;
pub mod rewrite;
pub mod saturate;
pub mod scheduler;
pub mod soundness;
pub mod steps;
pub mod sums;
pub mod unionfind;
pub mod working;

use self::forest::{is_forest, pairs_equal, Edges, Reason};
use self::hooks::{events_fit, notified, replay, Hook, HookEvent};
use self::lang::{lawful, texts, Id, Language};
use self::model::{canon, coarsens, holds_node, in_range, Model};
use self::unionfind::UnionFind;
use std::collections::HashMap;
use vstd::prelude::*;

verus! {

/// Why two terms were made equal: the label on a proof-forest edge.
pub enum Justification {
    /// A rewrite rule fired (or an internal reason like `"congruence"`).
    Rule(&'static str),
    /// Two e-nodes became structurally identical because their children were
    /// merged. The pairs are the (owner-child, canonical-child) ids that must
    /// be explained to justify this step.
    Congruence(Vec<(Id, Id)>),
}

impl View for Justification {
    type V = Reason;

    open spec fn view(&self) -> Reason {
        match self {
            Justification::Rule(name) => Reason::Rule(name@),
            Justification::Congruence(pairs) => Reason::Congruence(pairs@),
        }
    }
}

impl Clone for Justification {
    fn clone(&self) -> (copy: Self)
        ensures
            copy@ == self@,
    {
        match self {
            Justification::Rule(name) => Justification::Rule(*name),
            Justification::Congruence(pairs) => {
                let mut copy: Vec<(Id, Id)> = Vec::new();
                let mut i: usize = 0;
                while i < pairs.len()
                    invariant
                        i <= pairs.len(),
                        copy@ == pairs@.take(i as int),
                    decreases pairs.len() - i,
                {
                    copy.push(pairs[i]);
                    i = i + 1;
                    assert(copy@ =~= pairs@.take(i as int));
                }
                assert(pairs@.take(i as int) =~= pairs@);
                Justification::Congruence(copy)
            },
        }
    }
}

/// The per-class analysis value.
pub trait ClassData: Sized {
    /// The lattice value. Its default stands for "no information yet".
    type Data: Clone + PartialEq + Default;

    /// How often at most a value can still change.
    open spec fn height(data: &Self::Data) -> nat {
        0
    }

    /// Merging `b` into `a` may give `after`, reported as a change or not.
    open spec fn joined(a: &Self::Data, b: &Self::Data, after: &Self::Data, changed: bool) -> bool {
        true
    }

    /// `a` holds all the information of `b`.
    open spec fn covers(a: &Self::Data, b: &Self::Data) -> bool {
        true
    }
}

/// An e-class analysis: data for every class, kept up to date by the engine.
pub trait Analysis<L: Language>: ClassData {
    /// `modify` never changes the graph.
    open spec fn inert() -> bool {
        false
    }

    /// `modify` may turn the graph `before` into `after` when it is called on
    /// class `id`.
    open spec fn modified(before: &EGraph<L, Self>, id: Id, after: &EGraph<L, Self>) -> bool {
        true
    }

    /// `data` is what `make` computes for `node` where the classes of its
    /// children have the data `parts`.
    open spec fn made(parts: Seq<Self::Data>, node: &L, data: &Self::Data) -> bool {
        true
    }

    /// Compute the data for `node` given the current graph (its children
    /// already have data). Called when a new e-node is added.
    fn make(egraph: &EGraph<L, Self>, node: &L) -> (data: Self::Data)
        requires
            egraph.wf(),
            egraph.model().knows(*node),
        ensures
            Self::made(egraph.kid_data(*node), node, &data),
    ;

    /// Merge `b` into `a` in place when two classes unite. Return `true` if
    /// `a` changed, so that the engine can run `modify` again. A value changes
    /// only finitely often.
    fn merge(&mut self, a: &mut Self::Data, b: Self::Data) -> (changed: bool)
        ensures
            Self::joined(old(a), &b, final(a), changed),
            changed ==> Self::height(final(a)) < Self::height(old(a)),
            !changed ==> *final(a) == *old(a),
            Self::covers(final(a), &b),
            forall|other: &Self::Data| #[trigger]
                Self::covers(old(a), other) ==> Self::covers(final(a), other),
    ;

    /// Hook invoked after a class's data changed. Use it to add nodes or
    /// unions (e.g. to materialize a folded constant), or leave it empty.
    fn modify(egraph: &mut EGraph<L, Self>, id: Id)
        requires
            old(egraph).wf(),
            old(egraph).model().has(id),
        ensures
            final(egraph).wf(),
            old(egraph).grows_into(final(egraph)),
            Self::modified(old(egraph), id, final(egraph)),
            Self::inert() ==> *final(egraph) == *old(egraph),
    ;
}

/// The data of the analysis that keeps none.
#[derive(Clone, Copy, PartialEq, Eq, Debug, Default)]
pub struct NoData;

/// The trivial analysis, for a graph without one.
impl ClassData for () {
    type Data = NoData;
}

impl<L: Language> Analysis<L> for () {
    open spec fn inert() -> bool {
        true
    }

    fn make(egraph: &EGraph<L, Self>, node: &L) -> NoData {
        NoData
    }

    open spec fn modified(before: &EGraph<L, Self>, id: Id, after: &EGraph<L, Self>) -> bool {
        *after == *before
    }

    fn merge(&mut self, a: &mut NoData, b: NoData) -> bool {
        false
    }

    fn modify(egraph: &mut EGraph<L, Self>, id: Id) {
        proof {
            old(egraph).lemma_grows_refl();
        }
    }
}

/// A single equivalence class: the e-nodes proven equal, plus the analysis
/// data derived for the class.
#[verifier::reject_recursive_types(L)]
#[verifier::reject_recursive_types(N)]
pub struct EClass<L: Language, N: ClassData> {
    nodes: Vec<L>,
    /// Parent e-nodes that reference this class (op node, its owning class).
    /// Used to propagate congruence when classes merge.
    parents: Vec<(L, Id)>,
    /// The e-class analysis data.
    data: N::Data,
}

impl<L: Language, N: ClassData> EClass<L, N> {
    /// The e-nodes of this class.
    pub closed spec fn members(&self) -> Seq<L> {
        self.nodes@
    }

    /// The parent entries of this class.
    pub closed spec fn entries(&self) -> Seq<(L, Id)> {
        self.parents@
    }
}

/// The e-graph, generic over a term language `L` and an analysis `N`.
#[verifier::reject_recursive_types(L)]
#[verifier::reject_recursive_types(N)]
pub struct EGraph<L: Language, N: ClassData = ()> {
    /// The analysis instance (holds any mutable analysis state).
    analysis: N,
    /// Which ids are equivalent.
    union_find: UnionFind,
    /// Canonical e-node to e-class id: the hashcons table.
    memo: HashMap<L, Id>,
    /// The class of every id that represents one.
    classes: Vec<Option<EClass<L, N>>>,
    /// Classes whose congruence may be stale; processed during `rebuild`.
    pending: Vec<Id>,
    /// Classes whose analysis data changed; `modify` runs on them in `rebuild`.
    analysis_pending: Vec<Id>,
    /// Proof forest for explanations: undirected justification edges between
    /// the exact ids passed to each `merge`. Unlike the union-find, these edges
    /// are never compressed away, so the full history survives.
    explain_edges: Vec<Vec<(Id, Justification)>>,
    /// The justification applied to the next `merge`.
    current_reason: Justification,
    /// A frozen textual form of each id's term, captured when the id is
    /// created (before any merge collapses classes).
    term_snapshot: Vec<String>,
    /// Side-effect observers, fired on every `add` and `merge`.
    hooks: Vec<Box<dyn Hook<L>>>,
}

/// The e-nodes in a row of the class table.
spec fn row_nodes<L: Language, N: ClassData>(row: Option<EClass<L, N>>) -> Seq<L> {
    match row {
        Some(class) => class.nodes@,
        None => Seq::empty(),
    }
}

/// The parent entries in a row of the class table.
spec fn row_parents<L: Language, N: ClassData>(row: Option<EClass<L, N>>) -> Seq<(L, Id)> {
    match row {
        Some(class) => class.parents@,
        None => Seq::empty(),
    }
}

/// The edges in a row of the edge table.
pub open spec fn row_edges(row: Seq<(Id, Justification)>) -> Seq<(Id, Reason)> {
    Seq::new(row.len(), |e: int| (row[e].0, row[e].1@))
}

impl<L: Language, N: ClassData> EGraph<L, N> {
    /// The ids, classes and tables of this graph.
    pub closed spec fn model(&self) -> Model<L> {
        Model {
            roots: self.union_find@,
            nodes: Seq::new(self.classes@.len(), |i: int| row_nodes(self.classes@[i])),
            parents: Seq::new(self.classes@.len(), |i: int| row_parents(self.classes@[i])),
            memo: self.memo@,
            pending: self.pending@,
        }
    }

    /// The proof forest.
    pub closed spec fn edges(&self) -> Edges {
        Seq::new(self.explain_edges@.len(), |i: int| row_edges(self.explain_edges@[i]@))
    }

    /// The frozen term of every id.
    pub closed spec fn terms(&self) -> Seq<Seq<char>> {
        texts(self.term_snapshot@)
    }

    /// The registered hooks.
    pub closed spec fn watchers(&self) -> Seq<Box<dyn Hook<L>>> {
        self.hooks@
    }

    /// The analysis data of the class that `id` represents.
    pub closed spec fn class_data(&self, id: Id) -> N::Data {
        self.classes@[id.at()]->0.data
    }

    /// The analysis data of the classes of a node's children.
    pub open spec fn kid_data(&self, node: L) -> Seq<N::Data> {
        Seq::new(node.kids().len(), |j: int| self.class_data(self.model().root(node.kids()[j])))
    }

    /// The classes that wait for `modify`.
    pub closed spec fn stale(&self) -> Seq<Id> {
        self.analysis_pending@
    }

    /// The justification of the next merge.
    pub closed spec fn reason(&self) -> Reason {
        self.current_reason@
    }

    /// Nothing waits for repair or for `modify`.
    pub open spec fn settled(&self) -> bool {
        self.model().pending.len() == 0 && self.stale().len() == 0
    }

    /// All tables fit each other.
    pub closed spec fn safe(&self) -> bool {
        &&& lawful::<L>()
        &&& self.union_find.wf()
        &&& self.classes@.len() == self.union_find@.len()
        &&& forall|i: int|
            #![trigger self.classes@[i]]
            0 <= i < self.classes@.len() ==> (self.classes@[i] is Some <==> self.union_find@[i]
                == Id(i as u32))
        &&& self.model().shape()
        &&& is_forest(self.union_find@, self.edges())
        &&& self.term_snapshot@.len() == self.union_find@.len()
        &&& in_range(self.union_find@.len(), self.analysis_pending@)
        &&& pairs_equal(self.union_find@, self.current_reason@)
    }

    /// The class table has a row for `id`.
    pub closed spec fn has_row(&self, id: Id) -> bool {
        self.classes@[id.at()] is Some
    }

    /// All tables are as long as the union-find, and refer to known ids only.
    pub closed spec fn ranged(&self) -> bool {
        &&& lawful::<L>()
        &&& self.union_find.wf()
        &&& self.classes@.len() == self.union_find@.len()
        &&& self.model().in_bounds()
    }

    /// The invariant of an e-graph.
    pub open spec fn wf(&self) -> bool {
        self.safe() && self.model().consistent()
    }

    /// This graph became `new` by the events `events`: hooks were told of
    /// them, the canonical ids follow from them, no e-node, frozen term or
    /// proof edge was lost, and without an event nothing new waits.
    pub open spec fn evolved(&self, new: &Self, events: Seq<HookEvent<L>>) -> bool {
        &&& events_fit(self.model().roots, events)
        &&& new.model().roots == replay(self.model().roots, events)
        &&& coarsens(self.model().roots, new.model().roots)
        &&& notified(self.watchers(), new.watchers(), events)
        &&& keeps_nodes(self.model(), new.model())
        &&& extends(self.terms(), new.terms())
        &&& extends_rows(self.edges(), new.edges())
        &&& events.len() == 0 && self.settled() ==> new.settled()
    }

    /// This graph became `new` by some events.
    pub open spec fn grows_into(&self, new: &Self) -> bool {
        exists|events: Seq<HookEvent<L>>| #[trigger] self.evolved(new, events)
    }

    /// Doing nothing is no event.
    pub proof fn lemma_grows_refl(&self)
        requires
            self.wf(),
        ensures
            self.evolved(self, Seq::empty()),
            self.grows_into(self),
    {
        let none = Seq::<HookEvent<L>>::empty();
        assert(forall|log: Seq<HookEvent<L>>| #[trigger] (log + none) =~= log);
        assert forall|k: int, x: int|
            #![trigger self.model().nodes[k][x]]
            0 <= k < self.model().len() && 0 <= x < self.model().nodes[k].len() implies holds_node(
            self.model().roots,
            self.model().class(Id(k as u32)),
            canon(self.model().roots, self.model().nodes[k][x]),
        ) by {
            assert(self.model().roots[k] == Id(k as u32));
            assert(self.model().class(Id(k as u32))[x] == self.model().nodes[k][x]);
        }
        assert(self.evolved(self, none));
    }
}

/// Every e-node of `old` is, up to canonical form, still in its class.
pub open spec fn keeps_nodes<L: Language>(old: Model<L>, new: Model<L>) -> bool {
    forall|k: int, x: int|
        #![trigger old.nodes[k][x]]
        0 <= k < old.len() && 0 <= x < old.nodes[k].len() ==> holds_node(
            new.roots,
            new.class(Id(k as u32)),
            canon(new.roots, old.nodes[k][x]),
        )
}

/// `new` starts with `old`.
pub open spec fn extends<T>(old: Seq<T>, new: Seq<T>) -> bool {
    &&& old.len() <= new.len()
    &&& forall|i: int| #![trigger new[i]] #![trigger old[i]] 0 <= i < old.len() ==> new[i] == old[i]
}

/// Every row of `new` starts with that of `old`.
pub open spec fn extends_rows<T>(old: Seq<Seq<T>>, new: Seq<Seq<T>>) -> bool {
    &&& old.len() <= new.len()
    &&& forall|i: int|
        #![trigger new[i]]
        #![trigger old[i]]
        0 <= i < old.len() ==> extends(old[i], new[i])
}

} // verus!
