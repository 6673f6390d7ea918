//! Union-find over e-class ids, with path halving.

use super::lang::Id;
use vstd::prelude::*;

verus! {

/// Which ids are equivalent. The view lists the canonical representative of
/// every id that was handed out.
pub struct UnionFind {
    /// Parent pointers, indexed by id; a root points to itself.
    parents: Vec<Id>,
    /// A number for every id that shrinks along parent pointers.
    depth: Ghost<Seq<nat>>,
}

/// Every pointer stays in range and leads to a smaller depth.
spec fn ranked(parents: Seq<Id>, depth: Seq<nat>) -> bool {
    &&& depth.len() == parents.len()
    &&& forall|i: int|
        #![trigger parents[i]]
        0 <= i < parents.len() ==> parents[i].at() < parents.len() && (parents[i].at() != i
            ==> depth[parents[i].at()] < depth[i])
}

/// The root reached from `i` along the parent pointers.
spec fn root_of(parents: Seq<Id>, depth: Seq<nat>, i: int) -> Id
    decreases depth[i],
    when ranked(parents, depth) && 0 <= i < parents.len()
{
    if parents[i].at() == i {
        parents[i]
    } else {
        root_of(parents, depth, parents[i].at())
    }
}

proof fn lemma_root_is_root(parents: Seq<Id>, depth: Seq<nat>, i: int)
    requires
        ranked(parents, depth),
        0 <= i < parents.len(),
    ensures
        root_of(parents, depth, i).at() < parents.len(),
        parents[root_of(parents, depth, i).at()] == root_of(parents, depth, i),
        root_of(parents, depth, root_of(parents, depth, i).at()) == root_of(parents, depth, i),
    decreases depth[i],
{
    if parents[i].at() != i {
        lemma_root_is_root(parents, depth, parents[i].at());
    }
}

/// Pointing `c` further up its own path changes no root.
proof fn lemma_shortcut(parents: Seq<Id>, depth: Seq<nat>, c: int, up: Id, i: int)
    requires
        ranked(parents, depth),
        0 <= c < parents.len(),
        up.at() < parents.len(),
        depth[up.at()] < depth[c],
        root_of(parents, depth, up.at()) == root_of(parents, depth, c),
        parents[c].at() != c,
        0 <= i < parents.len(),
    ensures
        ranked(parents.update(c, up), depth),
        root_of(parents.update(c, up), depth, i) == root_of(parents, depth, i),
    decreases depth[i],
{
    let next = parents.update(c, up);
    assert(ranked(next, depth));
    if i == c {
        lemma_shortcut(parents, depth, c, up, up.at());
    } else if parents[i].at() != i {
        lemma_shortcut(parents, depth, c, up, parents[i].at());
    }
}

/// The depths after root `b` was hung under root `a`: every tree but that of
/// `a` sinks below `a`.
spec fn sunk(parents: Seq<Id>, depth: Seq<nat>, a: Id) -> Seq<nat> {
    Seq::new(
        depth.len(),
        |i: int|
            if root_of(parents, depth, i) == a {
                depth[i]
            } else {
                depth[i] + depth[a.at()] + 1
            },
    )
}

proof fn lemma_link_ranked(parents: Seq<Id>, depth: Seq<nat>, a: Id, b: Id)
    requires
        ranked(parents, depth),
        a.at() < parents.len(),
        b.at() < parents.len(),
        parents[a.at()] == a,
        parents[b.at()] == b,
        a != b,
    ensures
        ranked(parents.update(b.at(), a), sunk(parents, depth, a)),
{
    let next = parents.update(b.at(), a);
    let low = sunk(parents, depth, a);
    assert forall|i: int| #![trigger next[i]] 0 <= i < next.len() implies next[i].at() < next.len()
        && (next[i].at() != i ==> low[next[i].at()] < low[i]) by {
        if i != b.at() && parents[i].at() != i {
            assert(root_of(parents, depth, i) == root_of(parents, depth, parents[i].at()));
        }
        assert(root_of(parents, depth, b.at()) == b);
        assert(root_of(parents, depth, a.at()) == a);
    }
}

proof fn lemma_link(parents: Seq<Id>, depth: Seq<nat>, a: Id, b: Id, i: int)
    requires
        ranked(parents, depth),
        a.at() < parents.len(),
        b.at() < parents.len(),
        parents[a.at()] == a,
        parents[b.at()] == b,
        a != b,
        0 <= i < parents.len(),
    ensures
        root_of(parents.update(b.at(), a), sunk(parents, depth, a), i) == if root_of(
            parents,
            depth,
            i,
        ) == b {
            a
        } else {
            root_of(parents, depth, i)
        },
    decreases depth[i],
{
    let next = parents.update(b.at(), a);
    let low = sunk(parents, depth, a);
    lemma_link_ranked(parents, depth, a, b);
    if i == b.at() {
        assert(root_of(next, low, a.at()) == a);
    } else if parents[i].at() != i {
        lemma_link(parents, depth, a, b, parents[i].at());
    }
}

proof fn lemma_push(parents: Seq<Id>, depth: Seq<nat>, i: int)
    requires
        ranked(parents, depth),
        parents.len() <= u32::MAX,
        0 <= i < parents.len(),
    ensures
        ranked(parents.push(Id(parents.len() as u32)), depth.push(0)),
        root_of(parents.push(Id(parents.len() as u32)), depth.push(0), i) == root_of(
            parents,
            depth,
            i,
        ),
    decreases depth[i],
{
    let next = parents.push(Id(parents.len() as u32));
    assert(ranked(next, depth.push(0)));
    if parents[i].at() != i {
        lemma_push(parents, depth, parents[i].at());
    }
}

/// Canonical ids of a union-find: every id maps to an id that is its own
/// representative.
pub open spec fn canonical_map(roots: Seq<Id>) -> bool {
    forall|i: int|
        #![trigger roots[i]]
        0 <= i < roots.len() ==> roots[i].at() < roots.len() && roots[roots[i].at()] == roots[i]
}

/// The canonical map after class `absorbed` joined class `survivor`.
pub open spec fn joined(roots: Seq<Id>, survivor: Id, absorbed: Id) -> Seq<Id> {
    Seq::new(
        roots.len(),
        |i: int|
            if roots[i] == absorbed {
                survivor
            } else {
                roots[i]
            },
    )
}

impl View for UnionFind {
    type V = Seq<Id>;

    closed spec fn view(&self) -> Seq<Id> {
        Seq::new(self.parents@.len(), |i: int| root_of(self.parents@, self.depth@, i))
    }
}

impl UnionFind {
    /// The pointers are acyclic and in range, and every id fits its type.
    pub closed spec fn wf(&self) -> bool {
        &&& ranked(self.parents@, self.depth@)
        &&& self.parents@.len() <= u32::MAX + 1
    }

    /// Representatives are their own representatives.
    pub proof fn lemma_canonical(&self)
        requires
            self.wf(),
        ensures
            canonical_map(self@),
            self@.len() <= u32::MAX + 1,
    {
        assert forall|i: int| #![trigger self@[i]] 0 <= i < self@.len() implies self@[i].at()
            < self@.len() && self@[self@[i].at()] == self@[i] by {
            lemma_root_is_root(self.parents@, self.depth@, i);
        }
    }

    /// No ids yet.
    pub fn new() -> (uf: Self)
        ensures
            uf.wf(),
            uf@ == Seq::<Id>::empty(),
    {
        UnionFind { parents: Vec::new(), depth: Ghost(Seq::empty()) }
    }

    /// How many ids were handed out.
    pub fn len(&self) -> (n: usize)
        ensures
            n == self@.len(),
    {
        self.parents.len()
    }

    /// Hand out the next id, alone in its class.
    pub fn make_set(&mut self) -> (id: Id)
        requires
            old(self).wf(),
            old(self)@.len() <= u32::MAX,
        ensures
            final(self).wf(),
            id == Id(old(self)@.len() as u32),
            final(self)@ == old(self)@.push(id),
    {
        let id = Id(self.parents.len() as u32);
        proof {
            assert forall|i: int| 0 <= i < self.parents@.len() implies #[trigger] root_of(
                self.parents@.push(id),
                self.depth@.push(0),
                i,
            ) == root_of(self.parents@, self.depth@, i) by {
                lemma_push(self.parents@, self.depth@, i);
            }
            assert(ranked(self.parents@.push(id), self.depth@.push(0)));
        }
        self.parents.push(id);
        self.depth = Ghost(self.depth@.push(0));
        assert(self@ =~= old(self)@.push(id));
        id
    }

    /// Whether `id` represents its class.
    pub fn is_root(&self, id: Id) -> (yes: bool)
        requires
            self.wf(),
            id.at() < self@.len(),
        ensures
            yes == (self@[id.at()] == id),
    {
        proof {
            lemma_root_is_root(self.parents@, self.depth@, id.at());
        }
        self.parents[id.0 as usize] == id
    }

    /// Canonical representative of `id`, with path halving.
    pub fn find(&mut self, id: Id) -> (root: Id)
        requires
            old(self).wf(),
            id.at() < old(self)@.len(),
        ensures
            final(self).wf(),
            final(self)@ == old(self)@,
            root == old(self)@[id.at()],
    {
        let mut current = id;
        while self.parents[current.0 as usize] != current
            invariant
                self.wf(),
                self@ == old(self)@,
                current.at() < self@.len(),
                self@[current.at()] == old(self)@[id.at()],
            decreases self.depth@[current.at()],
        {
            let parent = self.parents[current.0 as usize];
            // Path halving: point to the grandparent.
            let grand = self.parents[parent.0 as usize];
            proof {
                let (p, d) = (self.parents@, self.depth@);
                assert(root_of(p, d, current.at()) == root_of(p, d, parent.at()));
                assert(root_of(p, d, parent.at()) == root_of(p, d, grand.at()));
                assert(self@[current.at()] == self@[grand.at()]);
                assert forall|i: int| 0 <= i < p.len() implies #[trigger] root_of(
                    p.update(current.at(), grand),
                    d,
                    i,
                ) == root_of(p, d, i) by {
                    lemma_shortcut(p, d, current.at(), grand, i);
                }
                lemma_shortcut(p, d, current.at(), grand, current.at());
            }
            let ghost before = self@;
            self.parents[current.0 as usize] = grand;
            assert(self@ =~= before);
            current = grand;
        }
        current
    }

    /// Canonical representative of `id`, without compression.
    pub fn find_immut(&self, id: Id) -> (root: Id)
        requires
            self.wf(),
            id.at() < self@.len(),
        ensures
            root == self@[id.at()],
    {
        let mut current = id;
        while self.parents[current.0 as usize] != current
            invariant
                self.wf(),
                current.at() < self@.len(),
                self@[current.at()] == self@[id.at()],
            decreases self.depth@[current.at()],
        {
            let next = self.parents[current.0 as usize];
            assert(root_of(self.parents@, self.depth@, current.at()) == root_of(
                self.parents@,
                self.depth@,
                next.at(),
            ));
            current = next;
        }
        current
    }

    /// Hang the root `absorbed` under the root `survivor`.
    pub fn link(&mut self, survivor: Id, absorbed: Id)
        requires
            old(self).wf(),
            survivor.at() < old(self)@.len(),
            absorbed.at() < old(self)@.len(),
            old(self)@[survivor.at()] == survivor,
            old(self)@[absorbed.at()] == absorbed,
            survivor != absorbed,
        ensures
            final(self).wf(),
            final(self)@ == joined(old(self)@, survivor, absorbed),
    {
        let ghost low = sunk(self.parents@, self.depth@, survivor);
        proof {
            let (p, d) = (self.parents@, self.depth@);
            lemma_root_is_root(p, d, survivor.at());
            lemma_root_is_root(p, d, absorbed.at());
            lemma_link_ranked(p, d, survivor, absorbed);
            assert forall|i: int| 0 <= i < p.len() implies #[trigger] root_of(
                p.update(absorbed.at(), survivor),
                low,
                i,
            ) == (if root_of(p, d, i) == absorbed {
                survivor
            } else {
                root_of(p, d, i)
            }) by {
                lemma_link(p, d, survivor, absorbed, i);
            }
        }
        self.parents[absorbed.0 as usize] = survivor;
        self.depth = Ghost(low);
        assert(self@ =~= joined(old(self)@, survivor, absorbed));
    }
}

} // verus!
