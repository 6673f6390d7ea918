//! A structural self-check of an e-graph.

use super::closure::{is_canonical, tidy};
use super::graph::{overlay, write_children};
use super::lang::{copy_node, equal_nodes, lawful, lemma_key, Id, Language};
use super::model::{canon, canon_ids, holds_entry, mentions, Model};
use super::{ClassData, EGraph};
use std::collections::HashMap;
use vstd::prelude::*;
use vstd::std_specs::hash::obeys_key_model;

verus! {

/// What the self-check found to be wrong.
#[derive(Clone, Copy, PartialEq, Eq, Debug)]
pub enum Violation {
    /// Invariant 1: the root `id` has no class.
    RootWithoutClass { id: Id },
    /// Invariant 1: `id` is no root, but still has a class.
    ClassWithoutRoot { id: Id },
    /// Invariant 2: a node of `class` has the non-canonical child `child`.
    StaleChild { class: Id, child: Id },
    /// Invariant 3: a node of `class` is missing from the hashcons table.
    NotInterned { class: Id },
    /// Invariant 3: the hashcons table maps a node of `class` to another class.
    InternedElsewhere { class: Id },
    /// Invariant 4: two classes hold the same node.
    NotCongruent { first: Id, second: Id },
    /// Invariant 5: a parent entry of `class` does not refer to it.
    StrayParent { class: Id },
    /// Invariant 5: `child` does not list a node of `class` as its parent.
    MissingParent { class: Id, child: Id },
}

/// The children of the node `a` of class `k` are roots.
pub open spec fn canonical_at<L: Language>(m: Model<L>, k: int, a: int) -> bool {
    forall|j: int|
        #![trigger m.nodes[k][a].kids()[j]]
        0 <= j < m.nodes[k][a].kids().len() ==> m.root(m.nodes[k][a].kids()[j])
            == m.nodes[k][a].kids()[j]
}

/// The hashcons table maps the node `a` of class `k` to the class.
pub open spec fn interned_at<L: Language>(m: Model<L>, k: int, a: int) -> bool {
    m.memo.contains_key(m.nodes[k][a]) && m.root(m.memo[m.nodes[k][a]]) == Id(k as u32)
}

/// Node canonicality: every stored node's children are roots.
pub open spec fn nodes_canonical<L: Language>(m: Model<L>) -> bool {
    forall|k: int, a: int|
        #![trigger m.nodes[k][a]]
        0 <= k < m.len() && 0 <= a < m.nodes[k].len() ==> canonical_at(m, k, a)
}

/// Hashcons agreement: the table maps each node to its class.
pub open spec fn nodes_interned<L: Language>(m: Model<L>) -> bool {
    forall|k: int, a: int|
        #![trigger m.nodes[k][a]]
        0 <= k < m.len() && 0 <= a < m.nodes[k].len() ==> interned_at(m, k, a)
}

/// An e-node is in two distinct classes.
pub open spec fn share_a_node<L: Language>(m: Model<L>, first: Id, second: Id) -> bool {
    &&& m.has(first) && m.has(second) && first != second
    &&& exists|a: int, b: int|
        #![trigger m.nodes[first.at()][a], m.nodes[second.at()][b]]
        0 <= a < m.nodes[first.at()].len() && 0 <= b < m.nodes[second.at()].len()
            && m.nodes[first.at()][a] == m.nodes[second.at()][b]
}

/// Congruence closure: no two classes share a node.
pub open spec fn nodes_apart<L: Language>(m: Model<L>) -> bool {
    forall|k: int, a: int, l: int, b: int|
        #![trigger m.nodes[k][a], m.nodes[l][b]]
        0 <= k < m.len() && 0 <= a < m.nodes[k].len() && 0 <= l < m.len() && 0 <= b
            < m.nodes[l].len() && m.nodes[k][a] == m.nodes[l][b] ==> k == l
}

/// Parent entries are real: they refer to the class that lists them.
pub open spec fn parents_real<L: Language>(m: Model<L>) -> bool {
    forall|k: int, e: int|
        #![trigger m.parents[k][e]]
        0 <= k < m.len() && 0 <= e < m.parents[k].len() ==> mentions(
            m.roots,
            m.parents[k][e].0,
            Id(k as u32),
        )
}

/// The class of the child `j` of the node `a` of class `k` lists the node, up
/// to canonical form, as a parent.
pub open spec fn listed_at<L: Language>(m: Model<L>, k: int, a: int, j: int) -> bool {
    holds_entry(
        m.roots,
        m.parents[m.root(m.nodes[k][a].kids()[j]).at()],
        canon(m.roots, m.nodes[k][a]),
        Id(k as u32),
    )
}

/// Parent entries are complete: every class lists the nodes that refer to it.
pub open spec fn parents_complete<L: Language>(m: Model<L>) -> bool {
    forall|k: int, a: int, j: int|
        #![trigger m.nodes[k][a].kids()[j]]
        0 <= k < m.len() && 0 <= a < m.nodes[k].len() && 0 <= j < m.nodes[k][a].kids().len()
            ==> listed_at(m, k, a, j)
}

impl<L: Language, N: ClassData> EGraph<L, N> {
    /// Union-find consistency: exactly the roots have classes.
    pub open spec fn rows_are_roots(&self) -> bool {
        forall|id: Id| #[trigger]
            self.model().has(id) ==> (self.has_row(id) <==> self.model().root(id) == id)
    }

    /// What has to hold of an e-graph after `rebuild`.
    pub open spec fn valid(&self) -> bool {
        let m = self.model();
        &&& self.rows_are_roots()
        &&& nodes_canonical(m)
        &&& nodes_interned(m)
        &&& nodes_apart(m)
        &&& parents_real(m)
        &&& parents_complete(m)
    }

    /// `what` is wrong with the graph, and all invariants of a lower number
    /// hold.
    pub open spec fn violated(&self, what: Violation) -> bool {
        let m = self.model();
        match what {
            Violation::RootWithoutClass { id } => m.has(id) && m.root(id) == id && !self.has_row(
                id,
            ),
            Violation::ClassWithoutRoot { id } => m.has(id) && m.root(id) != id && self.has_row(id),
            Violation::StaleChild { class, child } => {
                &&& self.rows_are_roots()
                &&& m.has(class)
                &&& m.root(child) != child
                &&& exists|a: int, j: int|
                    #![trigger m.nodes[class.at()][a].kids()[j]]
                    0 <= a < m.nodes[class.at()].len() && 0 <= j
                        < m.nodes[class.at()][a].kids().len()
                        && m.nodes[class.at()][a].kids()[j] == child
            },
            Violation::NotInterned { class } => {
                &&& self.rows_are_roots()
                &&& m.has(class)
                &&& exists|a: int|
                    #![trigger m.nodes[class.at()][a]]
                    0 <= a < m.nodes[class.at()].len() && !m.memo.contains_key(
                        m.nodes[class.at()][a],
                    )
            },
            Violation::InternedElsewhere { class } => {
                &&& self.rows_are_roots()
                &&& m.has(class)
                &&& exists|a: int|
                    #![trigger m.nodes[class.at()][a]]
                    0 <= a < m.nodes[class.at()].len() && m.memo.contains_key(
                        m.nodes[class.at()][a],
                    ) && m.root(m.memo[m.nodes[class.at()][a]]) != class
            },
            Violation::NotCongruent { first, second } => {
                &&& self.rows_are_roots() && nodes_canonical(m) && nodes_interned(m)
                &&& share_a_node(m, first, second)
            },
            Violation::StrayParent { class } => {
                &&& self.rows_are_roots() && nodes_canonical(m) && nodes_interned(m)
                    && nodes_apart(m)
                &&& m.has(class)
                &&& exists|e: int|
                    #![trigger m.parents[class.at()][e]]
                    0 <= e < m.parents[class.at()].len() && !mentions(
                        m.roots,
                        m.parents[class.at()][e].0,
                        class,
                    )
            },
            Violation::MissingParent { class, child } => {
                &&& self.rows_are_roots() && nodes_canonical(m) && nodes_interned(m)
                    && nodes_apart(m) && parents_real(m)
                &&& m.has(class)
                &&& exists|a: int, j: int|
                    #![trigger m.nodes[class.at()][a].kids()[j]]
                    0 <= a < m.nodes[class.at()].len() && 0 <= j
                        < m.nodes[class.at()][a].kids().len()
                        && m.nodes[class.at()][a].kids()[j] == child && !listed_at(
                        m,
                        class.at(),
                        a,
                        j,
                    )
            },
        }
    }

    /// A graph between operations can be checked.
    pub proof fn lemma_ranged(&self)
        requires
            self.safe(),
        ensures
            self.ranged(),
            self.rows_are_roots(),
    {
        self.lemma_safe();
        let m = self.model();
        assert forall|id: Id| #[trigger] m.has(id) implies (self.has_row(id) <==> m.root(id)
            == id) by {
            assert(Id(id.at() as u32) == id);
            assert(self.classes@[id.at()] is Some <==> self.union_find@[id.at()] == id);
        }
        assert(m.in_bounds());
    }

    /// Structural self-check. Verifies the invariants that must hold after
    /// `rebuild`, and names the first violation.
    ///
    /// 1. Union-find consistency: every root has a class, and no other id has.
    /// 2. Node canonicality: every stored node's children are canonical roots.
    /// 3. Hashcons agreement: the table maps each canonical node to its class.
    /// 4. Congruence closure: no two distinct classes share a canonical node.
    /// 5. Parent-list correctness: a node references a class if and only if
    ///    that class lists the node as a parent.
    pub fn check_invariants(&self) -> (result: Result<(), Violation>)
        requires
            self.ranged(),
        ensures
            match result {
                Ok(_) => self.valid(),
                Err(what) => !self.valid() && self.violated(what),
            },
    {
        let ghost m = self.model();
        if let Err(what) = self.check_rows() {
            return Err(what);
        }
        if let Err(what) = self.check_nodes() {
            return Err(what);
        }
        if let Err(what) = self.check_congruence() {
            return Err(what);
        }
        if let Err(what) = self.check_parents() {
            return Err(what);
        }
        if let Err(what) = self.check_listed() {
            return Err(what);
        }
        Ok(())
    }

    /// Invariant 1.
    fn check_rows(&self) -> (result: Result<(), Violation>)
        requires
            self.ranged(),
        ensures
            match result {
                Ok(_) => self.rows_are_roots(),
                Err(what) => !self.valid() && self.violated(what),
            },
    {
        let ghost m = self.model();
        let mut i: usize = 0;
        while i < self.classes.len()
            invariant
                self.ranged(),
                m == self.model(),
                m.len() == self.classes@.len(),
                m.len() <= u32::MAX + 1,
                i <= m.len(),
                forall|id: Id| #[trigger]
                    m.has(id) && id.at() < i ==> (self.has_row(id) <==> m.root(id) == id),
            decreases m.len() - i,
        {
            let id = Id(i as u32);
            assert(m.has(id));
            let root = self.union_find.is_root(id);
            if root && self.classes[i].is_none() {
                assert(!self.has_row(id));
                return Err(Violation::RootWithoutClass { id });
            }
            if !root && self.classes[i].is_some() {
                assert(self.has_row(id));
                return Err(Violation::ClassWithoutRoot { id });
            }
            assert forall|other: Id| #[trigger] m.has(other) && other.at() < i + 1 implies (
            self.has_row(other) <==> m.root(other) == other) by {
                if other.at() == i {
                    assert(other == id);
                }
            }
            i = i + 1;
        }
        Ok(())
    }

    /// The root of a known id.
    fn root_of(&self, id: Id) -> (root: Id)
        requires
            self.ranged(),
            self.model().has(id),
        ensures
            root == self.model().root(id),
            self.model().has(root),
            self.model().root(root) == root,
    {
        proof {
            self.union_find.lemma_canonical();
        }
        self.union_find.find_immut(id)
    }

    /// Invariants 2 and 3.
    fn check_nodes(&self) -> (result: Result<(), Violation>)
        requires
            self.ranged(),
            self.rows_are_roots(),
        ensures
            match result {
                Ok(_) => nodes_canonical(self.model()) && nodes_interned(self.model()),
                Err(what) => !self.valid() && self.violated(what),
            },
    {
        let ghost m = self.model();
        let mut i: usize = 0;
        while i < self.classes.len()
            invariant
                self.ranged(),
                self.rows_are_roots(),
                m == self.model(),
                m.len() == self.classes@.len(),
                m.in_bounds(),
                i <= m.len(),
                forall|k: int, a: int|
                    #![trigger m.nodes[k][a]]
                    0 <= k < i && 0 <= a < m.nodes[k].len() ==> canonical_at(m, k, a)
                        && interned_at(m, k, a),
            decreases m.len() - i,
        {
            if let Some(class) = &self.classes[i] {
                let id = Id(i as u32);
                assert(m.nodes[i as int] == class.nodes@);
                let mut a: usize = 0;
                while a < class.nodes.len()
                    invariant
                        self.ranged(),
                        self.rows_are_roots(),
                        m == self.model(),
                        m.in_bounds(),
                        i < m.len(),
                        id == Id(i as u32),
                        m.nodes[i as int] == class.nodes@,
                        a <= class.nodes@.len(),
                        forall|b: int|
                            #![trigger m.nodes[i as int][b]]
                            0 <= b < a ==> canonical_at(m, i as int, b) && interned_at(
                                m,
                                i as int,
                                b,
                            ),
                    decreases class.nodes@.len() - a,
                {
                    let node = &class.nodes[a];
                    assert(*node == m.nodes[i as int][a as int]);
                    assert(m.knows(m.nodes[i as int][a as int]));
                    let mut j: usize = 0;
                    while j < node.children().len()
                        invariant
                            self.ranged(),
                            self.rows_are_roots(),
                            m == self.model(),
                            i < m.len(),
                            id == Id(i as u32),
                            a < m.nodes[i as int].len(),
                            *node == m.nodes[i as int][a as int],
                            m.knows(*node),
                            j <= node.kids().len(),
                            forall|x: int|
                                #![trigger node.kids()[x]]
                                0 <= x < j ==> m.root(node.kids()[x]) == node.kids()[x],
                        decreases node.kids().len() - j,
                    {
                        let child = node.children()[j];
                        assert(node.kids()[j as int] == child);
                        if self.root_of(child) != child {
                            proof {
                                assert(id.at() == i);
                                assert(m.root(child) != child);
                                assert(m.nodes[i as int][a as int].kids()[j as int] == child);
                                assert(!canonical_at(m, i as int, a as int));
                                assert(!nodes_canonical(m));
                            }
                            let what = Violation::StaleChild { class: id, child };
                            assert(self.violated(what));
                            return Err(what);
                        }
                        j = j + 1;
                    }
                    assert(canonical_at(m, i as int, a as int)) by {
                        assert forall|x: int|
                            #![trigger m.nodes[i as int][a as int].kids()[x]]
                            0 <= x < m.nodes[i as int][a as int].kids().len() implies m.root(
                            m.nodes[i as int][a as int].kids()[x],
                        ) == m.nodes[i as int][a as int].kids()[x] by {
                            assert(m.root(node.kids()[x]) == node.kids()[x]);
                        }
                    }
                    proof {
                        lemma_key::<L>();
                    }
                    match self.memo.get(node) {
                        Some(owner) => {
                            assert(m.memo.contains_key(*node) && m.memo[*node] == *owner);
                            if self.root_of(*owner) != id {
                                assert(m.nodes[id.at()][a as int] == *node);
                                assert(!interned_at(m, i as int, a as int));
                                assert(!nodes_interned(m));
                                let what = Violation::InternedElsewhere { class: id };
                                assert(0 <= a < m.nodes[id.at()].len() && m.memo.contains_key(
                                    m.nodes[id.at()][a as int],
                                ) && m.root(m.memo[m.nodes[id.at()][a as int]]) != id);
                                assert(self.violated(what));
                                return Err(what);
                            }
                        },
                        None => {
                            assert(m.nodes[id.at()][a as int] == *node);
                            assert(!interned_at(m, i as int, a as int));
                            return Err(Violation::NotInterned { class: id });
                        },
                    }
                    a = a + 1;
                }
            } else {
                assert(m.nodes[i as int].len() == 0);
            }
            i = i + 1;
        }
        Ok(())
    }

    /// Invariant 4.
    fn check_congruence(&self) -> (result: Result<(), Violation>)
        requires
            self.ranged(),
        ensures
            match result {
                Ok(_) => nodes_apart(self.model()),
                Err(what) => {
                    &&& !nodes_apart(self.model())
                    &&& what matches Violation::NotCongruent { first, second } && share_a_node(
                        self.model(),
                        first,
                        second,
                    )
                },
            },
    {
        let ghost m = self.model();
        proof {
            lemma_key::<L>();
        }
        let mut seen: HashMap<L, Id> = HashMap::new();
        let mut i: usize = 0;
        while i < self.classes.len()
            invariant
                self.ranged(),
                lawful::<L>(),
                obeys_key_model::<L>(),
                vstd::std_specs::hash::builds_valid_hashers::<std::collections::hash_map::RandomState>(),
                m == self.model(),
                m.len() == self.classes@.len(),
                m.in_bounds(),
                i <= m.len(),
                noted(m, seen@, i as int, 0),
            decreases m.len() - i,
        {
            if let Some(class) = &self.classes[i] {
                let id = Id(i as u32);
                assert(m.nodes[i as int] == class.nodes@);
                let mut a: usize = 0;
                while a < class.nodes.len()
                    invariant
                        self.ranged(),
                        lawful::<L>(),
                        obeys_key_model::<L>(),
                        vstd::std_specs::hash::builds_valid_hashers::<std::collections::hash_map::RandomState>(),
                        m == self.model(),
                        i < m.len(),
                        m.in_bounds(),
                        id == Id(i as u32),
                        m.nodes[i as int] == class.nodes@,
                        a <= class.nodes@.len(),
                        noted(m, seen@, i as int, a as int),
                    decreases class.nodes@.len() - a,
                {
                    let node = &class.nodes[a];
                    assert(*node == m.nodes[i as int][a as int]);
                    let ghost before = seen@;
                    if let Some(other) = seen.get(node) {
                        let other = *other;
                        if other != id {
                            proof {
                                assert(before.contains_key(*node) && before[*node] == other);
                                let b = choose|b: int|
                                    0 <= b < m.nodes[other.at()].len() && #[trigger] m.nodes[other.at()][b]
                                        == *node;
                                assert(m.nodes[other.at()][b] == m.nodes[id.at()][a as int]);
                                assert(!nodes_apart(m));
                            }
                            return Err(Violation::NotCongruent { first: other, second: id });
                        }
                    }
                    seen.insert(copy_node(node), id);
                    proof {
                        lemma_noted_more(m, before, i as int, a as int);
                    }
                    a = a + 1;
                }
                proof {
                    lemma_noted_next(m, seen@, i as int);
                }
            } else {
                assert(m.nodes[i as int].len() == 0);
                proof {
                    lemma_noted_next(m, seen@, i as int);
                }
            }
            i = i + 1;
        }
        proof {
            assert forall|k: int, a: int, l: int, b: int|
                #![trigger m.nodes[k][a], m.nodes[l][b]]
                0 <= k < m.len() && 0 <= a < m.nodes[k].len() && 0 <= l < m.len() && 0 <= b
                    < m.nodes[l].len() && m.nodes[k][a] == m.nodes[l][b] implies k == l by {
                assert(seen@[m.nodes[k][a]] == Id(k as u32));
                assert(seen@[m.nodes[l][b]] == Id(l as u32));
            }
        }
        Ok(())
    }

    /// Invariant 5, forward: every parent entry is real.
    fn check_parents(&self) -> (result: Result<(), Violation>)
        requires
            self.ranged(),
            self.rows_are_roots(),
            nodes_canonical(self.model()),
            nodes_interned(self.model()),
            nodes_apart(self.model()),
        ensures
            match result {
                Ok(_) => parents_real(self.model()),
                Err(what) => !self.valid() && self.violated(what),
            },
    {
        let ghost m = self.model();
        let mut i: usize = 0;
        while i < self.classes.len()
            invariant
                self.ranged(),
                self.rows_are_roots(),
                nodes_canonical(m),
                nodes_interned(m),
                nodes_apart(m),
                m == self.model(),
                m.len() == self.classes@.len(),
                m.in_bounds(),
                i <= m.len(),
                forall|k: int, e: int|
                    #![trigger m.parents[k][e]]
                    0 <= k < i && 0 <= e < m.parents[k].len() ==> mentions(
                        m.roots,
                        m.parents[k][e].0,
                        Id(k as u32),
                    ),
            decreases m.len() - i,
        {
            if let Some(class) = &self.classes[i] {
                let id = Id(i as u32);
                assert(m.parents[i as int] == class.parents@);
                let mut e: usize = 0;
                while e < class.parents.len()
                    invariant
                        self.ranged(),
                        self.rows_are_roots(),
                        nodes_canonical(m),
                        nodes_interned(m),
                        nodes_apart(m),
                        m == self.model(),
                        m.in_bounds(),
                        i < m.len(),
                        id == Id(i as u32),
                        m.parents[i as int] == class.parents@,
                        e <= class.parents@.len(),
                        forall|x: int|
                            #![trigger m.parents[i as int][x]]
                            0 <= x < e ==> mentions(m.roots, m.parents[i as int][x].0, id),
                    decreases class.parents@.len() - e,
                {
                    assert(m.entry_ok(m.parents[i as int][e as int]));
                    if !self.refers_to(&class.parents[e].0, id) {
                        assert(!mentions(m.roots, m.parents[id.at()][e as int].0, id));
                        return Err(Violation::StrayParent { class: id });
                    }
                    e = e + 1;
                }
            } else {
                assert(m.parents[i as int].len() == 0);
            }
            i = i + 1;
        }
        Ok(())
    }

    /// Whether a child of `node` is in the class `id`.
    fn refers_to(&self, node: &L, id: Id) -> (yes: bool)
        requires
            self.ranged(),
            self.model().knows(*node),
        ensures
            yes == mentions(self.model().roots, *node, id),
    {
        let mut j: usize = 0;
        while j < node.children().len()
            invariant
                self.ranged(),
                self.model().knows(*node),
                j <= node.kids().len(),
                forall|x: int|
                    #![trigger node.kids()[x]]
                    0 <= x < j ==> self.model().roots[node.kids()[x].at()] != id,
            decreases node.kids().len() - j,
        {
            let child = node.children()[j];
            assert(node.kids()[j as int] == child);
            if self.root_of(child) == id {
                assert(self.model().roots[node.kids()[j as int].at()] == id);
                return true;
            }
            j = j + 1;
        }
        false
    }

    /// Invariant 5, backward: every child reference is registered in that
    /// child's parents.
    fn check_listed(&self) -> (result: Result<(), Violation>)
        requires
            self.ranged(),
            self.rows_are_roots(),
            nodes_canonical(self.model()),
            nodes_interned(self.model()),
            nodes_apart(self.model()),
            parents_real(self.model()),
        ensures
            match result {
                Ok(_) => parents_complete(self.model()),
                Err(what) => !self.valid() && self.violated(what),
            },
    {
        let ghost m = self.model();
        let mut i: usize = 0;
        while i < self.classes.len()
            invariant
                self.ranged(),
                self.rows_are_roots(),
                nodes_canonical(m),
                nodes_interned(m),
                nodes_apart(m),
                parents_real(m),
                m == self.model(),
                m.len() == self.classes@.len(),
                m.in_bounds(),
                i <= m.len(),
                forall|k: int, a: int, j: int|
                    #![trigger m.nodes[k][a].kids()[j]]
                    0 <= k < i && 0 <= a < m.nodes[k].len() && 0 <= j < m.nodes[k][a].kids().len()
                        ==> listed_at(m, k, a, j),
            decreases m.len() - i,
        {
            if let Some(class) = &self.classes[i] {
                let id = Id(i as u32);
                assert(m.nodes[i as int] == class.nodes@);
                let mut a: usize = 0;
                while a < class.nodes.len()
                    invariant
                        self.ranged(),
                        self.rows_are_roots(),
                        nodes_canonical(m),
                        nodes_interned(m),
                        nodes_apart(m),
                        parents_real(m),
                        m == self.model(),
                        m.in_bounds(),
                        i < m.len(),
                        id == Id(i as u32),
                        m.nodes[i as int] == class.nodes@,
                        a <= class.nodes@.len(),
                        forall|b: int, j: int|
                            #![trigger m.nodes[i as int][b].kids()[j]]
                            0 <= b < a && 0 <= j < m.nodes[i as int][b].kids().len() ==> listed_at(
                                m,
                                i as int,
                                b,
                                j,
                            ),
                    decreases class.nodes@.len() - a,
                {
                    let node = &class.nodes[a];
                    assert(*node == m.nodes[i as int][a as int]);
                    assert(m.knows(m.nodes[i as int][a as int]));
                    let mut j: usize = 0;
                    while j < node.children().len()
                        invariant
                            self.ranged(),
                            self.rows_are_roots(),
                            nodes_canonical(m),
                            nodes_interned(m),
                            nodes_apart(m),
                            parents_real(m),
                            m == self.model(),
                            m.in_bounds(),
                            i < m.len(),
                            id == Id(i as u32),
                            a < m.nodes[i as int].len(),
                            *node == m.nodes[i as int][a as int],
                            m.knows(*node),
                            j <= node.kids().len(),
                            forall|x: int|
                                #![trigger m.nodes[i as int][a as int].kids()[x]]
                                0 <= x < j ==> listed_at(m, i as int, a as int, x),
                        decreases node.kids().len() - j,
                    {
                        let child = node.children()[j];
                        assert(node.kids()[j as int] == child);
                        let root = self.root_of(child);
                        if !self.lists(root, node, id) {
                            proof {
                                assert(m.nodes[id.at()][a as int].kids()[j as int] == child);
                                assert(!listed_at(m, i as int, a as int, j as int));
                            }
                            return Err(Violation::MissingParent { class: id, child });
                        }
                        assert(listed_at(m, i as int, a as int, j as int));
                        j = j + 1;
                    }
                    a = a + 1;
                }
            } else {
                assert(m.nodes[i as int].len() == 0);
            }
            i = i + 1;
        }
        Ok(())
    }

    /// Whether the class `child` lists `node` of class `owner` as a parent.
    fn lists(&self, child: Id, node: &L, owner: Id) -> (yes: bool)
        requires
            self.ranged(),
            self.rows_are_roots(),
            self.model().has(child),
            self.model().root(child) == child,
            self.model().knows(*node),
        ensures
            yes == holds_entry(
                self.model().roots,
                self.model().parents[child.at()],
                canon(self.model().roots, *node),
                owner,
            ),
    {
        let ghost m = self.model();
        assert(self.has_row(child));
        let form = self.form_of(node);
        let entries = &self.classes[child.0 as usize].as_ref().unwrap().parents;
        assert(entries@ == m.parents[child.at()]);
        let mut e: usize = 0;
        while e < entries.len()
            invariant
                self.ranged(),
                lawful::<L>(),
                m == self.model(),
                m.in_bounds(),
                m.has(child),
                entries@ == m.parents[child.at()],
                form == canon(m.roots, *node),
                e <= entries@.len(),
                forall|x: int|
                    #![trigger entries@[x]]
                    0 <= x < e ==> canon(m.roots, entries@[x].0) != form
                        || m.roots[entries@[x].1.at()] != owner,
            decreases entries@.len() - e,
        {
            assert(m.entry_ok(m.parents[child.at()][e as int]));
            if self.root_of(entries[e].1) == owner {
                let other = self.form_of(&entries[e].0);
                if equal_nodes(&other, &form) {
                    assert(canon(m.roots, entries@[e as int].0) == form);
                    return true;
                }
            }
            e = e + 1;
        }
        false
    }

    /// The canonical form of a node.
    fn form_of(&self, node: &L) -> (form: L)
        requires
            self.ranged(),
            self.model().knows(*node),
        ensures
            form == canon(self.model().roots, *node),
    {
        let ghost roots = self.model().roots;
        let mut form = copy_node(node);
        let mut ids: Vec<Id> = Vec::new();
        let mut i: usize = 0;
        while i < node.children().len()
            invariant
                self.ranged(),
                roots == self.model().roots,
                self.model().knows(*node),
                i <= node.kids().len(),
                ids@ == canon_ids(roots, node.kids().take(i as int)),
            decreases node.kids().len() - i,
        {
            let child = node.children()[i];
            assert(node.kids()[i as int] == child);
            ids.push(self.root_of(child));
            i = i + 1;
            assert(ids@ =~= canon_ids(roots, node.kids().take(i as int)));
        }
        assert(overlay(node.kids(), ids@) =~= canon_ids(roots, node.kids()));
        write_children(&mut form, &ids);
        form
    }
}

/// `seen` maps exactly the nodes of the first `i` classes, and the first `a`
/// nodes of class `i`, to their classes.
spec fn noted<L: Language>(m: Model<L>, seen: Map<L, Id>, i: int, a: int) -> bool {
    &&& forall|k: int, b: int|
        #![trigger m.nodes[k][b]]
        0 <= k < m.len() && 0 <= b < m.nodes[k].len() && (k < i || (k == i && b < a))
            ==> seen.contains_key(m.nodes[k][b]) && seen[m.nodes[k][b]] == Id(k as u32)
    &&& forall|node: L| #[trigger]
        seen.contains_key(node) ==> {
            &&& m.has(seen[node])
            &&& exists|b: int|
                0 <= b < m.nodes[seen[node].at()].len() && #[trigger] m.nodes[seen[node].at()][b]
                    == node
        }
}

proof fn lemma_noted_more<L: Language>(m: Model<L>, seen: Map<L, Id>, i: int, a: int)
    requires
        0 <= i < m.len() <= u32::MAX + 1,
        m.nodes.len() == m.len(),
        0 <= a < m.nodes[i].len(),
        noted(m, seen, i, a),
        seen.contains_key(m.nodes[i][a]) ==> seen[m.nodes[i][a]] == Id(i as u32),
    ensures
        noted(m, seen.insert(m.nodes[i][a], Id(i as u32)), i, a + 1),
{
    let node = m.nodes[i][a];
    let now = seen.insert(node, Id(i as u32));
    assert forall|k: int, b: int|
        #![trigger m.nodes[k][b]]
        0 <= k < m.len() && 0 <= b < m.nodes[k].len() && (k < i || (k == i && b < a + 1)) implies now.contains_key(
        m.nodes[k][b],
    ) && now[m.nodes[k][b]] == Id(k as u32) by {
        if m.nodes[k][b] == node {
            if k < i {
                assert(seen.contains_key(m.nodes[k][b]));
            }
        }
    }
    assert forall|x: L| #[trigger] now.contains_key(x) implies m.has(now[x]) && exists|b: int|
        0 <= b < m.nodes[now[x].at()].len() && #[trigger] m.nodes[now[x].at()][b] == x by {
        if x == node {
            assert(m.nodes[now[x].at()][a] == x);
        } else {
            assert(seen.contains_key(x));
        }
    }
}

proof fn lemma_noted_next<L: Language>(m: Model<L>, seen: Map<L, Id>, i: int)
    requires
        0 <= i < m.len(),
        noted(m, seen, i, m.nodes[i].len() as int),
    ensures
        noted(m, seen, i + 1, 0),
{
}

/// A rebuilt graph passes the self-check: whatever is tidy is valid.
pub proof fn law_tidy_is_valid<L: Language, N: ClassData>(egraph: &EGraph<L, N>)
    requires
        egraph.wf(),
        tidy(egraph.model()),
    ensures
        egraph.ranged(),
        egraph.valid(),
{
    egraph.lemma_safe();
    egraph.lemma_ranged();
    let m = egraph.model();
    reveal(Model::consistent_with);
    assert forall|k: int, a: int|
        #![trigger m.nodes[k][a]]
        0 <= k < m.len() && 0 <= a < m.nodes[k].len() implies canonical_at(m, k, a) && interned_at(
        m,
        k,
        a,
    ) by {
        let node = m.nodes[k][a];
        assert(is_canonical(m.roots, m.nodes[k][a]));
        assert forall|j: int|
            #![trigger m.nodes[k][a].kids()[j]]
            0 <= j < m.nodes[k][a].kids().len() implies m.root(m.nodes[k][a].kids()[j])
            == m.nodes[k][a].kids()[j] by {
            assert(canon_ids(m.roots, node.kids())[j] == node.kids()[j]);
        }
        assert(m.nodes[k].len() > 0);
        assert(m.roots[k] == Id(k as u32));
    }
    assert(parents_real(m)) by {
        assert forall|k: int, e: int|
            #![trigger m.parents[k][e]]
            0 <= k < m.len() && 0 <= e < m.parents[k].len() implies mentions(
            m.roots,
            m.parents[k][e].0,
            Id(k as u32),
        ) by {
            assert(m.real_entry(Id(k as u32), m.parents[k][e]));
        }
    }
    assert(parents_complete(m)) by {
        assert forall|k: int, a: int, j: int|
            #![trigger m.nodes[k][a].kids()[j]]
            0 <= k < m.len() && 0 <= a < m.nodes[k].len() && 0 <= j
                < m.nodes[k][a].kids().len() implies listed_at(m, k, a, j) by {
            assert(m.listed(
                Id(0),
                Seq::empty(),
                m.nodes[k][a],
                Id(k as u32),
                m.nodes[k][a].kids()[j],
            ));
        }
    }
    assert(nodes_apart(m)) by {
        assert forall|k: int, a: int, l: int, b: int|
            #![trigger m.nodes[k][a], m.nodes[l][b]]
            0 <= k < m.len() && 0 <= a < m.nodes[k].len() && 0 <= l < m.len() && 0 <= b
                < m.nodes[l].len() && m.nodes[k][a] == m.nodes[l][b] implies k == l by {
            assert(m.memo[m.nodes[k][a]] == Id(k as u32));
            assert(m.memo[m.nodes[l][b]] == Id(l as u32));
        }
    }
}

/// What the self-check reports is there: the class that it names exists and has
/// the fault that it is said to have.
pub proof fn law_violation_is_there<L: Language, N: ClassData>(
    egraph: &EGraph<L, N>,
    class: Id,
    child: Id,
)
    ensures
        ({
            let m = egraph.model();
            let nodes = m.nodes[class.at()];
            &&& egraph.violated(Violation::RootWithoutClass { id: class }) ==> m.has(class)
                && m.roots[class.at()] == class && !egraph.has_row(class)
            &&& egraph.violated(Violation::ClassWithoutRoot { id: class }) ==> m.has(class)
                && m.roots[class.at()] != class && egraph.has_row(class)
            &&& egraph.violated(Violation::StaleChild { class, child }) ==> m.has(class)
                && m.roots[child.at()] != child && exists|a: int, j: int|
                #![trigger nodes[a].kids()[j]]
                0 <= a < nodes.len() && 0 <= j < nodes[a].kids().len() && nodes[a].kids()[j]
                    == child
            &&& egraph.violated(Violation::NotInterned { class }) ==> m.has(class) && exists|a: int|
                #![trigger nodes[a]]
                0 <= a < nodes.len() && !m.memo.contains_key(nodes[a])
            &&& egraph.violated(Violation::InternedElsewhere { class }) ==> m.has(class) && exists|
                a: int,
            |
                #![trigger nodes[a]]
                0 <= a < nodes.len() && m.memo.contains_key(nodes[a])
                    && m.roots[m.memo[nodes[a]].at()] != class
            &&& egraph.violated(Violation::NotCongruent { first: class, second: child }) ==> class
                != child && m.has(class) && m.has(child) && exists|a: int, b: int|
                #![trigger nodes[a], m.nodes[child.at()][b]]
                0 <= a < nodes.len() && 0 <= b < m.nodes[child.at()].len() && nodes[a]
                    == m.nodes[child.at()][b]
            &&& egraph.violated(Violation::StrayParent { class }) ==> m.has(class) && exists|e: int|
                #![trigger m.parents[class.at()][e]]
                0 <= e < m.parents[class.at()].len() && forall|j: int|
                    #![trigger m.parents[class.at()][e].0.kids()[j]]
                    0 <= j < m.parents[class.at()][e].0.kids().len()
                        ==> m.roots[m.parents[class.at()][e].0.kids()[j].at()] != class
            &&& egraph.violated(Violation::MissingParent { class, child }) ==> m.has(class)
                && exists|a: int, j: int|
                #![trigger nodes[a].kids()[j]]
                0 <= a < nodes.len() && 0 <= j < nodes[a].kids().len() && nodes[a].kids()[j]
                    == child && !holds_entry(
                    m.roots,
                    m.parents[m.roots[child.at()].at()],
                    canon(m.roots, nodes[a]),
                    class,
                )
        }),
{
    let m = egraph.model();
    let nodes = m.nodes[class.at()];
    if egraph.violated(Violation::StrayParent { class }) {
        let e = choose|e: int|
            #![trigger m.parents[class.at()][e]]
            0 <= e < m.parents[class.at()].len() && !mentions(
                m.roots,
                m.parents[class.at()][e].0,
                class,
            );
        let node = m.parents[class.at()][e].0;
        assert forall|j: int|
            #![trigger m.parents[class.at()][e].0.kids()[j]]
            0 <= j < node.kids().len() implies m.roots[node.kids()[j].at()] != class by {
            assert(!(m.roots[node.kids()[j].at()] == class));
        }
    }
    if egraph.violated(Violation::MissingParent { class, child }) {
        let (a, j) = choose|a: int, j: int|
            #![trigger m.nodes[class.at()][a].kids()[j]]
            0 <= a < m.nodes[class.at()].len() && 0 <= j < m.nodes[class.at()][a].kids().len()
                && m.nodes[class.at()][a].kids()[j] == child && !listed_at(m, class.at(), a, j);
        assert(Id(class.at() as u32) == class);
        assert(nodes[a].kids()[j] == child);
    }
}

} // verus!
