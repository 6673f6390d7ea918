//! E-matching: find the substitutions under which a pattern matches a class.

use super::lang::{copy_node, lawful, Id, Language};
use super::model::{canon, holds_node, in_range, Model};
use super::rewrite::{Pattern, Subst};
use super::{ClassData, EGraph};
use vstd::prelude::*;

verus! {

/// Bindings of variable names to e-classes.
pub type Bound = Map<Seq<char>, Id>;

/// All bound ids are known.
pub open spec fn bound_in<L: Language>(m: Model<L>, s: Bound) -> bool {
    forall|name: Seq<char>| #[trigger] s.contains_key(name) ==> m.has(s[name])
}

/// The substitutions that extend `s` under which `p` matches the class of
/// `id`, in the order in which the e-nodes are stored.
pub open spec fn matches_of<L: Language>(m: Model<L>, p: Pattern<L>, id: Id, s: Bound) -> Seq<Bound>
    decreases p, 2nat, 0nat,
{
    match p {
        Pattern::Var(name) => {
            // A variable that is bound already must match the same class.
            if s.contains_key(name@) && m.root(s[name@]) != m.root(id) {
                Seq::empty()
            } else {
                seq![s.insert(name@, m.root(id))]
            }
        },
        Pattern::Op { node, children } => node_matches(m, p, id, s, m.class(id).len()),
    }
}

/// The matches of an operator pattern by the first `n` e-nodes of a class.
pub open spec fn node_matches<L: Language>(
    m: Model<L>,
    p: Pattern<L>,
    id: Id,
    s: Bound,
    n: nat,
) -> Seq<Bound>
    decreases p, 1nat, n,
{
    if n == 0 || p is Var {
        Seq::empty()
    } else {
        let rest = node_matches(m, p, id, s, (n - 1) as nat);
        let enode = m.class(id)[n - 1];
        if enode.same_op(&p->node) {
            rest + kid_matches(m, p, enode.kids(), s, paired(p, enode.kids()))
        } else {
            rest
        }
    }
}

/// How many children of a pattern are matched against `kids`.
pub open spec fn paired<L: Language>(p: Pattern<L>, kids: Seq<Id>) -> nat {
    if p->children@.len() <= kids.len() {
        p->children@.len()
    } else {
        kids.len()
    }
}

/// The matches of the first `n` children of an operator pattern against the
/// first of `kids`, threading substitutions.
pub open spec fn kid_matches<L: Language>(
    m: Model<L>,
    p: Pattern<L>,
    kids: Seq<Id>,
    s: Bound,
    n: nat,
) -> Seq<Bound>
    decreases p, 0nat, n,
{
    if p is Var || n > p->children@.len() {
        Seq::empty()
    } else if n == 0 {
        seq![s]
    } else {
        each_matches(
            m,
            p->children@[n - 1],
            kids[n - 1],
            kid_matches(m, p, kids, s, (n - 1) as nat),
        )
    }
}

/// The matches of `p` that extend one of `substs`, one after the other.
pub open spec fn each_matches<L: Language>(
    m: Model<L>,
    p: Pattern<L>,
    id: Id,
    substs: Seq<Bound>,
) -> Seq<Bound>
    decreases p, 3nat, substs.len(),
{
    if substs.len() == 0 {
        Seq::empty()
    } else {
        each_matches(m, p, id, substs.drop_last()) + matches_of(m, p, id, substs.last())
    }
}

/// The class of `id` stands for the pattern `p` under the bindings `s`.
pub open spec fn stands_for<L: Language>(m: Model<L>, id: Id, p: Pattern<L>, s: Bound) -> bool
    decreases p,
{
    match p {
        Pattern::Var(name) => s.contains_key(name@) && m.root(s[name@]) == m.root(id),
        Pattern::Op { node, children } => exists|a: int|
            0 <= a < m.class(id).len() && #[trigger] m.class(id)[a].same_op(&node) && forall|i: int|
                #![trigger children@[i]]
                0 <= i < children@.len() && i < m.class(id)[a].kids().len() ==> stands_for(
                    m,
                    m.class(id)[a].kids()[i],
                    children@[i],
                    s,
                ),
    }
}

/// `t` binds what `s` binds, to the same classes.
pub open spec fn extends_bound<L: Language>(m: Model<L>, s: Bound, t: Bound) -> bool {
    forall|name: Seq<char>| #[trigger]
        s.contains_key(name) ==> t.contains_key(name) && m.root(t[name]) == m.root(s[name])
}

/// The contents of a list of substitutions.
pub open spec fn bounds(substs: Seq<Subst>) -> Seq<Bound> {
    Seq::new(substs.len(), |i: int| substs[i]@)
}

/// All substitutions bind known ids only.
pub open spec fn all_bound_in<L: Language>(m: Model<L>, substs: Seq<Bound>) -> bool {
    forall|i: int| #![trigger substs[i]] 0 <= i < substs.len() ==> bound_in(m, substs[i])
}

proof fn lemma_bounds_concat(a: Seq<Subst>, b: Seq<Subst>)
    ensures
        bounds(a + b) == bounds(a) + bounds(b),
{
    assert(bounds(a + b) =~= bounds(a) + bounds(b));
}

impl<L: Language, N: ClassData> EGraph<L, N> {
    /// Find all substitutions under which `pattern` matches e-class `id`.
    pub(crate) fn match_pattern(&self, pattern: &Pattern<L>, id: Id, subst: &Subst) -> (found: Vec<
        Subst,
    >)
        requires
            self.wf(),
            self.model().has(id),
            bound_in(self.model(), subst@),
        ensures
            bounds(found@) == matches_of(self.model(), *pattern, id, subst@),
            all_bound_in(self.model(), bounds(found@)),
        decreases pattern, 1nat,
    {
        let ghost m = self.model();
        proof {
            self.lemma_safe();
        }
        let root = self.find_immut(id);
        match pattern {
            Pattern::Var(name) => {
                // If already bound, it must match the same class.
                if let Some(bound) = subst.get(name.as_str()) {
                    if self.find_immut(*bound) != root {
                        let none: Vec<Subst> = Vec::new();
                        assert(bounds(none@) =~= Seq::empty());
                        return none;
                    }
                }
                let mut s = subst.clone();
                s.insert(name.clone(), root);
                let mut found: Vec<Subst> = Vec::new();
                found.push(s);
                assert(bounds(found@) =~= seq![subst@.insert(name@, root)]);
                found
            },
            Pattern::Op { node, children } => {
                let mut results: Vec<Subst> = Vec::new();
                let nodes = self.nodes(id);
                let mut a: usize = 0;
                assert(bounds(results@) =~= Seq::empty());
                while a < nodes.len()
                    invariant
                        self.wf(),
                        m == self.model(),
                        m.shape(),
                        m.has(id),
                        bound_in(m, subst@),
                        nodes@ == m.class(id),
                        a <= nodes@.len(),
                        *pattern == (Pattern::Op { node: *node, children: *children }),
                        bounds(results@) == node_matches(m, *pattern, id, subst@, a as nat),
                        all_bound_in(m, bounds(results@)),
                    decreases nodes@.len() - a,
                {
                    let ghost before = results@;
                    if nodes[a].matches(node) {
                        assert(m.knows(m.nodes[m.root(id).at()][a as int]));
                        let mut substs = self.match_children(pattern, &nodes[a], subst);
                        let ghost more = substs@;
                        results.append(&mut substs);
                        proof {
                            assert(results@ =~= before + more);
                            lemma_bounds_concat(before, more);
                            let all = bounds(results@);
                            assert forall|i: int|
                                #![trigger all[i]]
                                0 <= i < all.len() implies bound_in(m, all[i]) by {
                                if i < before.len() {
                                    assert(all[i] == bounds(before)[i]);
                                } else {
                                    assert(all[i] == bounds(more)[i - before.len()]);
                                }
                            }
                        }
                    }
                    a = a + 1;
                }
                results
            },
        }
    }

    /// Match each child pattern of an operator pattern against the
    /// corresponding child class, threading substitutions.
    fn match_children(&self, pattern: &Pattern<L>, enode: &L, subst: &Subst) -> (found: Vec<Subst>)
        requires
            self.wf(),
            self.model().knows(*enode),
            bound_in(self.model(), subst@),
            pattern is Op,
        ensures
            bounds(found@) == kid_matches(
                self.model(),
                *pattern,
                enode.kids(),
                subst@,
                paired(*pattern, enode.kids()),
            ),
            all_bound_in(self.model(), bounds(found@)),
        decreases pattern, 0nat,
    {
        let ghost m = self.model();
        let mut substs: Vec<Subst> = Vec::new();
        substs.push(subst.clone());
        assert(bounds(substs@) =~= seq![subst@]);
        if let Pattern::Op { node, children } = pattern {
            let mut j: usize = 0;
            while j < children.len() && j < enode.children().len()
                invariant
                    self.wf(),
                    m == self.model(),
                    m.knows(*enode),
                    pattern is Op,
                    children@ == pattern->children@,
                    decreases_to!(pattern => children@),
                    j <= children@.len(),
                    j <= enode.kids().len(),
                    bounds(substs@) == kid_matches(m, *pattern, enode.kids(), subst@, j as nat),
                    all_bound_in(m, bounds(substs@)),
                decreases children.len() - j,
            {
                let kid = enode.children()[j];
                assert(enode.kids()[j as int] == kid);
                let ghost list = substs@;
                let mut next: Vec<Subst> = Vec::new();
                let mut i: usize = 0;
                assert(bounds(next@) =~= Seq::empty());
                assert(bounds(list).take(0) =~= Seq::empty());
                while i < substs.len()
                    invariant
                        self.wf(),
                        m == self.model(),
                        m.has(kid),
                        pattern is Op,
                        children@ == pattern->children@,
                        decreases_to!(pattern => children@),
                        j < children@.len(),
                        substs@ == list,
                        i <= list.len(),
                        all_bound_in(m, bounds(list)),
                        bounds(next@) == each_matches(
                            m,
                            children@[j as int],
                            kid,
                            bounds(list).take(i as int),
                        ),
                        all_bound_in(m, bounds(next@)),
                    decreases list.len() - i,
                {
                    let ghost before = next@;
                    assert(bounds(list)[i as int] == substs@[i as int]@);
                    assert(decreases_to!(children@ => children@[j as int]));
                    let mut found = self.match_pattern(&children[j], kid, &substs[i]);
                    let ghost more = found@;
                    next.append(&mut found);
                    i = i + 1;
                    proof {
                        assert(next@ =~= before + more);
                        lemma_bounds_concat(before, more);
                        let part = bounds(list).take(i as int);
                        assert(part.drop_last() =~= bounds(list).take(i - 1));
                        assert(part.last() == bounds(list)[i - 1]);
                        let all = bounds(next@);
                        assert forall|x: int| #![trigger all[x]] 0 <= x < all.len() implies bound_in(
                            m,
                            all[x],
                        ) by {
                            if x < before.len() {
                                assert(all[x] == bounds(before)[x]);
                            } else {
                                assert(all[x] == bounds(more)[x - before.len()]);
                            }
                        }
                    }
                }
                assert(bounds(list).take(i as int) =~= bounds(list));
                substs = next;
                j = j + 1;
            }
        }
        substs
    }
}

/// The contents of substitutions that come with the e-nodes they match.
pub open spec fn node_bounds<L: Language>(found: Seq<(Subst, L)>) -> Seq<Bound> {
    Seq::new(found.len(), |i: int| found[i].0@)
}

/// The e-node `enode` of the class of `id` matches the operator pattern `p`
/// under `s`: it has the operator, and its children stand for the sub-patterns.
pub open spec fn node_stands_for<L: Language>(
    m: Model<L>,
    id: Id,
    enode: L,
    p: Pattern<L>,
    s: Bound,
) -> bool {
    &&& m.knows(enode)
    &&& holds_node(m.roots, m.class(id), canon(m.roots, enode))
    &&& p matches Pattern::Op { node, children } && enode.same_op(&node) && forall|i: int|
        #![trigger children@[i]]
        0 <= i < children@.len() && i < enode.kids().len() ==> stands_for(
            m,
            enode.kids()[i],
            children@[i],
            s,
        )
}

impl<L: Language, N: ClassData> EGraph<L, N> {
    /// Like [`match_pattern`](Self::match_pattern) for an operator pattern, each
    /// substitution with the e-node that it came from.
    pub(crate) fn match_with_nodes(&self, pattern: &Pattern<L>, id: Id) -> (found: Vec<(Subst, L)>)
        requires
            self.wf(),
            self.model().has(id),
            pattern is Op,
        ensures
            node_bounds(found@) == matches_of(self.model(), *pattern, id, Map::empty()),
            forall|i: int|
                #![trigger found@[i]]
                0 <= i < found@.len() ==> bound_in(self.model(), found@[i].0@) && node_stands_for(
                    self.model(),
                    id,
                    found@[i].1,
                    *pattern,
                    found@[i].0@,
                ),
    {
        let ghost m = self.model();
        proof {
            self.lemma_safe();
        }
        let start = Subst::new();
        let mut results: Vec<(Subst, L)> = Vec::new();
        if let Pattern::Op { node, children } = pattern {
            let nodes = self.nodes(id);
            let mut a: usize = 0;
            assert(node_bounds(results@) =~= Seq::empty());
            while a < nodes.len()
                invariant
                    self.wf(),
                    lawful::<L>(),
                    m == self.model(),
                    m.shape(),
                    m.has(id),
                    start@ == Map::<Seq<char>, Id>::empty(),
                    nodes@ == m.class(id),
                    a <= nodes@.len(),
                    *pattern == (Pattern::Op { node: *node, children: *children }),
                    node_bounds(results@) == node_matches(m, *pattern, id, Map::empty(), a as nat),
                    forall|i: int|
                        #![trigger results@[i]]
                        0 <= i < results@.len() ==> bound_in(m, results@[i].0@) && node_stands_for(
                            m,
                            id,
                            results@[i].1,
                            *pattern,
                            results@[i].0@,
                        ),
                decreases nodes@.len() - a,
            {
                let ghost before = results@;
                if nodes[a].matches(node) {
                    assert(m.knows(m.nodes[m.root(id).at()][a as int]));
                    let substs = self.match_children(pattern, &nodes[a], &start);
                    let ghost more = bounds(substs@);
                    let mut i: usize = 0;
                    while i < substs.len()
                        invariant
                            self.wf(),
                            lawful::<L>(),
                            m == self.model(),
                            m.shape(),
                            m.has(id),
                            nodes@ == m.class(id),
                            a < nodes@.len(),
                            nodes@[a as int].same_op(node),
                            m.knows(nodes@[a as int]),
                            *pattern == (Pattern::Op { node: *node, children: *children }),
                            more == bounds(substs@),
                            more == kid_matches(
                                m,
                                *pattern,
                                nodes@[a as int].kids(),
                                Map::empty(),
                                paired(*pattern, nodes@[a as int].kids()),
                            ),
                            i <= substs@.len(),
                            node_bounds(results@) == node_bounds(before) + more.take(i as int),
                            forall|k: int|
                                #![trigger results@[k]]
                                0 <= k < results@.len() ==> bound_in(m, results@[k].0@)
                                    && node_stands_for(
                                    m,
                                    id,
                                    results@[k].1,
                                    *pattern,
                                    results@[k].0@,
                                ),
                        decreases substs@.len() - i,
                    {
                        let ghost had = results@;
                        let copy = copy_node(&nodes[a]);
                        results.push((substs[i].clone(), copy));
                        proof {
                            let t = substs@[i as int]@;
                            let enode = nodes@[a as int];
                            assert(more[i as int] == t);
                            lemma_kid_sound(
                                m,
                                *pattern,
                                enode.kids(),
                                Map::empty(),
                                paired(*pattern, enode.kids()),
                                t,
                            );
                            assert(canon(m.roots, m.class(id)[a as int]) == canon(m.roots, enode));
                            assert(node_stands_for(m, id, enode, *pattern, t)) by {
                                assert forall|j: int|
                                    #![trigger children@[j]]
                                    0 <= j < children@.len() && j < enode.kids().len() implies stands_for(
                                    m,
                                    enode.kids()[j],
                                    children@[j],
                                    t,
                                ) by {
                                    assert(pattern->children@[j] == children@[j]);
                                }
                            }
                            assert(node_bounds(results@) =~= node_bounds(had).push(t));
                            assert(more.take(i + 1) =~= more.take(i as int).push(t));
                        }
                        i = i + 1;
                    }
                    assert(more.take(i as int) =~= more);
                }
                a = a + 1;
            }
        }
        results
    }
}

/// What a class stands for depends on the class only.
pub proof fn lemma_stands_class<L: Language>(m: Model<L>, a: Id, b: Id, p: Pattern<L>, s: Bound)
    requires
        m.root(a) == m.root(b),
        stands_for(m, a, p, s),
    ensures
        stands_for(m, b, p, s),
{
    if let Pattern::Op { node, children } = p {
        let x = choose|x: int|
            0 <= x < m.class(a).len() && #[trigger] m.class(a)[x].same_op(&node) && forall|i: int|
                #![trigger children@[i]]
                0 <= i < children@.len() && i < m.class(a)[x].kids().len() ==> stands_for(
                    m,
                    m.class(a)[x].kids()[i],
                    children@[i],
                    s,
                );
        assert(m.class(b)[x].same_op(&node));
    }
}

/// More bindings keep what a class stands for.
pub proof fn lemma_stands_extends<L: Language>(
    m: Model<L>,
    id: Id,
    p: Pattern<L>,
    s: Bound,
    t: Bound,
)
    requires
        extends_bound(m, s, t),
        stands_for(m, id, p, s),
    ensures
        stands_for(m, id, p, t),
    decreases p,
{
    match p {
        Pattern::Var(name) => {
            assert(s.contains_key(name@));
        },
        Pattern::Op { node, children } => {
            let x = choose|x: int|
                0 <= x < m.class(id).len() && #[trigger] m.class(id)[x].same_op(&node)
                    && forall|i: int|
                    #![trigger children@[i]]
                    0 <= i < children@.len() && i < m.class(id)[x].kids().len() ==> stands_for(
                        m,
                        m.class(id)[x].kids()[i],
                        children@[i],
                        s,
                    );
            assert forall|i: int|
                #![trigger children@[i]]
                0 <= i < children@.len() && i < m.class(id)[x].kids().len() implies stands_for(
                m,
                m.class(id)[x].kids()[i],
                children@[i],
                t,
            ) by {
                lemma_stands_extends(m, m.class(id)[x].kids()[i], children@[i], s, t);
            }
            assert(m.class(id)[x].same_op(&node));
        },
    }
}

proof fn lemma_extends_trans<L: Language>(m: Model<L>, a: Bound, b: Bound, c: Bound)
    requires
        extends_bound(m, a, b),
        extends_bound(m, b, c),
    ensures
        extends_bound(m, a, c),
{
    assert forall|name: Seq<char>| #[trigger] a.contains_key(name) implies c.contains_key(name)
        && m.root(c[name]) == m.root(a[name]) by {
        assert(b.contains_key(name));
    }
}

/// Every substitution that e-matching finds is right: it binds all that was
/// bound before, and the class stands for the pattern under it.
pub proof fn law_matches_sound<L: Language>(m: Model<L>, p: Pattern<L>, id: Id, s: Bound, t: Bound)
    requires
        m.shape(),
        m.has(id),
        bound_in(m, s),
        matches_of(m, p, id, s).contains(t),
    ensures
        stands_for(m, id, p, t),
        extends_bound(m, s, t),
        bound_in(m, t),
    decreases p, 2nat, 0nat,
{
    match p {
        Pattern::Var(name) => {
            assert(t == s.insert(name@, m.root(id)));
            assert(m.root(m.root(id)) == m.root(id));
        },
        Pattern::Op { node, children } => {
            lemma_node_sound(m, p, id, s, m.class(id).len(), t);
        },
    }
}

proof fn lemma_node_sound<L: Language>(
    m: Model<L>,
    p: Pattern<L>,
    id: Id,
    s: Bound,
    n: nat,
    t: Bound,
)
    requires
        m.shape(),
        m.has(id),
        bound_in(m, s),
        p is Op,
        n <= m.class(id).len(),
        node_matches(m, p, id, s, n).contains(t),
    ensures
        stands_for(m, id, p, t),
        extends_bound(m, s, t),
        bound_in(m, t),
    decreases p, 1nat, n,
{
    if n > 0 {
        let rest = node_matches(m, p, id, s, (n - 1) as nat);
        let all = node_matches(m, p, id, s, n);
        let i = choose|i: int| 0 <= i < all.len() && all[i] == t;
        if i < rest.len() {
            assert(rest[i] == t);
            lemma_node_sound(m, p, id, s, (n - 1) as nat, t);
        } else {
            let enode = m.class(id)[n - 1];
            let k = paired(p, enode.kids());
            let own = kid_matches(m, p, enode.kids(), s, k);
            assert(own[i - rest.len()] == t);
            assert(m.knows(m.nodes[m.root(id).at()][n - 1]));
            lemma_kid_sound(m, p, enode.kids(), s, k, t);
            assert(enode.same_op(&p->node));
            let children = p->children;
            assert forall|j: int|
                #![trigger children@[j]]
                0 <= j < children@.len() && j < enode.kids().len() implies stands_for(
                m,
                enode.kids()[j],
                children@[j],
                t,
            ) by {}
        }
    }
}

proof fn lemma_kid_sound<L: Language>(
    m: Model<L>,
    p: Pattern<L>,
    kids: Seq<Id>,
    s: Bound,
    n: nat,
    t: Bound,
)
    requires
        m.shape(),
        in_range(m.len(), kids),
        bound_in(m, s),
        p is Op,
        n <= p->children@.len(),
        n <= kids.len(),
        kid_matches(m, p, kids, s, n).contains(t),
    ensures
        extends_bound(m, s, t),
        bound_in(m, t),
        forall|j: int|
            #![trigger p->children@[j]]
            0 <= j < n ==> stands_for(m, kids[j], p->children@[j], t),
    decreases p, 0nat, n,
{
    if n == 0 {
        assert(t == s);
    } else {
        let prev = kid_matches(m, p, kids, s, (n - 1) as nat);
        let child = p->children@[n - 1];
        assert(m.has(kids[n - 1]));
        assert forall|x: Bound| #[trigger] prev.contains(x) implies bound_in(m, x) by {
            lemma_kid_sound(m, p, kids, s, (n - 1) as nat, x);
        }
        let from = lemma_each_sound(m, child, kids[n - 1], prev, t);
        lemma_kid_sound(m, p, kids, s, (n - 1) as nat, from);
        lemma_extends_trans(m, s, from, t);
        assert forall|j: int| #![trigger p->children@[j]] 0 <= j < n implies stands_for(
            m,
            kids[j],
            p->children@[j],
            t,
        ) by {
            if j < n - 1 {
                lemma_stands_extends(m, kids[j], p->children@[j], from, t);
            }
        }
    }
}

proof fn lemma_each_sound<L: Language>(
    m: Model<L>,
    p: Pattern<L>,
    id: Id,
    substs: Seq<Bound>,
    t: Bound,
) -> (from: Bound)
    requires
        m.shape(),
        m.has(id),
        forall|x: Bound| #[trigger] substs.contains(x) ==> bound_in(m, x),
        each_matches(m, p, id, substs).contains(t),
    ensures
        substs.contains(from),
        extends_bound(m, from, t),
        bound_in(m, t),
        stands_for(m, id, p, t),
    decreases p, 3nat, substs.len(),
{
    let all = each_matches(m, p, id, substs);
    let i = choose|i: int| 0 <= i < all.len() && all[i] == t;
    let less = substs.drop_last();
    let rest = each_matches(m, p, id, less);
    if i < rest.len() {
        assert(rest[i] == t);
        assert forall|x: Bound| #[trigger] less.contains(x) implies bound_in(m, x) by {
            let k = choose|k: int| 0 <= k < less.len() && less[k] == x;
            assert(substs[k] == x);
            assert(substs.contains(x));
        }
        let from = lemma_each_sound(m, p, id, less, t);
        let k = choose|k: int| 0 <= k < less.len() && less[k] == from;
        assert(substs[k] == from);
        from
    } else {
        let own = matches_of(m, p, id, substs.last());
        assert(own[i - rest.len()] == t);
        assert(substs[substs.len() - 1] == substs.last());
        assert(substs.contains(substs.last()));
        law_matches_sound(m, p, id, substs.last(), t);
        substs.last()
    }
}

/// E-matching finds every match: whenever the class stands for the pattern
/// under bindings that extend the given ones, one of the substitutions found
/// binds a part of them.
pub proof fn law_matches_complete<L: Language>(
    m: Model<L>,
    p: Pattern<L>,
    id: Id,
    s: Bound,
    t: Bound,
) -> (found: Bound)
    requires
        m.shape(),
        m.has(id),
        bound_in(m, s),
        extends_bound(m, s, t),
        stands_for(m, id, p, t),
    ensures
        matches_of(m, p, id, s).contains(found),
        extends_bound(m, s, found),
        extends_bound(m, found, t),
    decreases p, 2nat, 0nat,
{
    let found = match p {
        Pattern::Var(name) => {
            let found = s.insert(name@, m.root(id));
            if s.contains_key(name@) {
                assert(m.root(t[name@]) == m.root(s[name@]));
            }
            assert(matches_of(m, p, id, s)[0] == found);
            assert(m.root(m.root(id)) == m.root(id));
            found
        },
        Pattern::Op { node, children } => {
            let a = choose|a: int|
                0 <= a < m.class(id).len() && #[trigger] m.class(id)[a].same_op(&node)
                    && forall|i: int|
                    #![trigger children@[i]]
                    0 <= i < children@.len() && i < m.class(id)[a].kids().len() ==> stands_for(
                        m,
                        m.class(id)[a].kids()[i],
                        children@[i],
                        t,
                    );
            let enode = m.class(id)[a];
            assert(m.knows(m.nodes[m.root(id).at()][a]));
            let k = paired(p, enode.kids());
            assert forall|j: int| #![trigger p->children@[j]] 0 <= j < k implies stands_for(
                m,
                enode.kids()[j],
                p->children@[j],
                t,
            ) by {
                assert(children@[j] == p->children@[j]);
            }
            let found = lemma_kid_complete(m, p, enode.kids(), s, k, t);
            lemma_node_holds(m, p, id, s, m.class(id).len(), a, found);
            found
        },
    };
    law_matches_sound(m, p, id, s, found);
    found
}

proof fn lemma_node_holds<L: Language>(
    m: Model<L>,
    p: Pattern<L>,
    id: Id,
    s: Bound,
    n: nat,
    a: int,
    t: Bound,
)
    requires
        p is Op,
        0 <= a < n <= m.class(id).len(),
        m.class(id)[a].same_op(&p->node),
        kid_matches(m, p, m.class(id)[a].kids(), s, paired(p, m.class(id)[a].kids())).contains(t),
    ensures
        node_matches(m, p, id, s, n).contains(t),
    decreases n,
{
    let rest = node_matches(m, p, id, s, (n - 1) as nat);
    let all = node_matches(m, p, id, s, n);
    if a == n - 1 {
        let own = kid_matches(m, p, m.class(id)[a].kids(), s, paired(p, m.class(id)[a].kids()));
        let i = choose|i: int| 0 <= i < own.len() && own[i] == t;
        assert(all[rest.len() + i] == t);
    } else {
        lemma_node_holds(m, p, id, s, (n - 1) as nat, a, t);
        let i = choose|i: int| 0 <= i < rest.len() && rest[i] == t;
        assert(all[i] == t);
    }
}

proof fn lemma_kid_complete<L: Language>(
    m: Model<L>,
    p: Pattern<L>,
    kids: Seq<Id>,
    s: Bound,
    n: nat,
    t: Bound,
) -> (found: Bound)
    requires
        m.shape(),
        in_range(m.len(), kids),
        bound_in(m, s),
        p is Op,
        n <= p->children@.len(),
        n <= kids.len(),
        extends_bound(m, s, t),
        forall|j: int|
            #![trigger p->children@[j]]
            0 <= j < n ==> stands_for(m, kids[j], p->children@[j], t),
    ensures
        kid_matches(m, p, kids, s, n).contains(found),
        extends_bound(m, found, t),
    decreases p, 0nat, n,
{
    if n == 0 {
        assert(kid_matches(m, p, kids, s, n)[0] == s);
        s
    } else {
        let prev = kid_matches(m, p, kids, s, (n - 1) as nat);
        let from = lemma_kid_complete(m, p, kids, s, (n - 1) as nat, t);
        lemma_kid_sound(m, p, kids, s, (n - 1) as nat, from);
        let child = p->children@[n - 1];
        assert(m.has(kids[n - 1]));
        let found = law_matches_complete(m, child, kids[n - 1], from, t);
        lemma_each_holds(m, child, kids[n - 1], prev, from, found);
        found
    }
}

proof fn lemma_each_holds<L: Language>(
    m: Model<L>,
    p: Pattern<L>,
    id: Id,
    substs: Seq<Bound>,
    from: Bound,
    t: Bound,
)
    requires
        substs.contains(from),
        matches_of(m, p, id, from).contains(t),
    ensures
        each_matches(m, p, id, substs).contains(t),
    decreases substs.len(),
{
    let k = choose|k: int| 0 <= k < substs.len() && substs[k] == from;
    let less = substs.drop_last();
    let rest = each_matches(m, p, id, less);
    let all = each_matches(m, p, id, substs);
    if k == substs.len() - 1 {
        let own = matches_of(m, p, id, from);
        let i = choose|i: int| 0 <= i < own.len() && own[i] == t;
        assert(all[rest.len() + i] == t);
    } else {
        assert(less[k] == from);
        lemma_each_holds(m, p, id, less, from, t);
        let i = choose|i: int| 0 <= i < rest.len() && rest[i] == t;
        assert(all[i] == t);
    }
}

/// How matching goes. A variable matches every class, once, unless it is bound
/// to another one. An operator matches each e-node of the class that has it,
/// and no other, in the order in which they are stored.
pub proof fn law_matches_by_node<L: Language>(m: Model<L>, p: Pattern<L>, id: Id, s: Bound)
    ensures
        p matches Pattern::Var(name) ==> matches_of(m, p, id, s) == if s.contains_key(name@)
            && m.roots[s[name@].at()] != m.roots[id.at()] {
            Seq::<Bound>::empty()
        } else {
            seq![s.insert(name@, m.roots[id.at()])]
        },
        p matches Pattern::Op { node, children } ==> matches_of(m, p, id, s) == m.class(
            id,
        ).map_values(
            |enode: L|
                if enode.same_op(&node) {
                    kid_matches(
                        m,
                        p,
                        enode.kids(),
                        s,
                        if children@.len() <= enode.kids().len() {
                            children@.len()
                        } else {
                            enode.kids().len()
                        },
                    )
                } else {
                    Seq::empty()
                },
        ).flatten(),
{
    if p is Op {
        lemma_matches_by_node(m, p, id, s, m.class(id).len());
        assert(m.class(id).take(m.class(id).len() as int) =~= m.class(id));
        match p {
            Pattern::Op { node, children } => {
                let found = |enode: L|
                    if enode.same_op(&node) {
                        kid_matches(
                            m,
                            p,
                            enode.kids(),
                            s,
                            if children@.len() <= enode.kids().len() {
                                children@.len()
                            } else {
                                enode.kids().len()
                            },
                        )
                    } else {
                        Seq::empty()
                    };
                assert(m.class(id).map_values(found) =~= m.class(id).map_values(
                    |enode: L|
                        if enode.same_op(&p->node) {
                            kid_matches(m, p, enode.kids(), s, paired(p, enode.kids()))
                        } else {
                            Seq::empty()
                        },
                ));
            },
            _ => {},
        }
    }
}

proof fn lemma_matches_by_node<L: Language>(m: Model<L>, p: Pattern<L>, id: Id, s: Bound, n: nat)
    requires
        p is Op,
        n <= m.class(id).len(),
    ensures
        node_matches(m, p, id, s, n) == m.class(id).take(n as int).map_values(
            |enode: L|
                if enode.same_op(&p->node) {
                    kid_matches(m, p, enode.kids(), s, paired(p, enode.kids()))
                } else {
                    Seq::empty()
                },
        ).flatten(),
    decreases n,
{
    let found = |enode: L|
        if enode.same_op(&p->node) {
            kid_matches(m, p, enode.kids(), s, paired(p, enode.kids()))
        } else {
            Seq::<Bound>::empty()
        };
    let all = m.class(id).take(n as int).map_values(found);
    if n == 0 {
        assert(all.flatten() =~= Seq::empty());
    } else {
        let less = (n - 1) as nat;
        lemma_matches_by_node(m, p, id, s, less);
        let some = m.class(id).take(less as int).map_values(found);
        some.lemma_flatten_push(found(m.class(id)[n - 1]));
        assert(all =~= some.push(found(m.class(id)[n - 1])));
        assert(some.flatten() + Seq::<Bound>::empty() =~= some.flatten());
    }
}

/// The children of an operator are matched from left to right: every way to
/// match the first ones goes on with every way to match the next one under the
/// bindings made so far.
pub proof fn law_children_matched<L: Language>(
    m: Model<L>,
    p: Pattern<L>,
    kids: Seq<Id>,
    s: Bound,
    n: nat,
)
    requires
        p is Op,
        n < p->children@.len(),
    ensures
        kid_matches(m, p, kids, s, 0) == seq![s],
        kid_matches(m, p, kids, s, n + 1) == kid_matches(m, p, kids, s, n).map_values(
            |t: Bound| matches_of(m, p->children@[n as int], kids[n as int], t),
        ).flatten(),
{
    lemma_each_matches(m, p->children@[n as int], kids[n as int], kid_matches(m, p, kids, s, n));
    assert(((n + 1) as nat - 1) as nat == n);
}

proof fn lemma_each_matches<L: Language>(m: Model<L>, p: Pattern<L>, id: Id, substs: Seq<Bound>)
    ensures
        each_matches(m, p, id, substs) == substs.map_values(
            |t: Bound| matches_of(m, p, id, t),
        ).flatten(),
    decreases substs.len(),
{
    let found = |t: Bound| matches_of(m, p, id, t);
    if substs.len() == 0 {
        assert(substs.map_values(found).flatten() =~= Seq::empty());
    } else {
        let less = substs.drop_last();
        lemma_each_matches(m, p, id, less);
        less.map_values(found).lemma_flatten_push(found(substs.last()));
        assert(substs.map_values(found) =~= less.map_values(found).push(found(substs.last())));
    }
}

/// A copy of a pattern stands for the same classes, under the same bindings.
pub proof fn law_copied_pattern<L: Language>(
    m: Model<L>,
    id: Id,
    p: Pattern<L>,
    copy: Pattern<L>,
    s: Bound,
)
    requires
        lawful::<L>(),
        p.copied_by(&copy),
    ensures
        stands_for(m, id, copy, s) <==> stands_for(m, id, p, s),
    decreases p,
{
    match (p, copy) {
        (Pattern::Op { node, children }, Pattern::Op { node: twin, children: twins }) => {
            super::lang::lemma_clone(&node, &twin);
            assert forall|x: Id, i: int| 0 <= i < children@.len() implies #[trigger] stands_for(
                m,
                x,
                twins@[i],
                s,
            ) == stands_for(m, x, children@[i], s) by {
                assert(children@[i].copied_by(&twins@[i]));
                law_copied_pattern(m, x, children@[i], twins@[i], s);
            }
            if stands_for(m, id, p, s) {
                let a = choose|a: int|
                    0 <= a < m.class(id).len() && #[trigger] m.class(id)[a].same_op(&node)
                        && forall|i: int|
                        #![trigger children@[i]]
                        0 <= i < children@.len() && i < m.class(id)[a].kids().len() ==> stands_for(
                            m,
                            m.class(id)[a].kids()[i],
                            children@[i],
                            s,
                        );
                assert(m.class(id)[a].same_op(&twin));
                assert forall|i: int|
                    #![trigger twins@[i]]
                    0 <= i < twins@.len() && i < m.class(id)[a].kids().len() implies stands_for(
                    m,
                    m.class(id)[a].kids()[i],
                    twins@[i],
                    s,
                ) by {
                    assert(stands_for(m, m.class(id)[a].kids()[i], children@[i], s));
                }
            }
            if stands_for(m, id, copy, s) {
                let a = choose|a: int|
                    0 <= a < m.class(id).len() && #[trigger] m.class(id)[a].same_op(&twin)
                        && forall|i: int|
                        #![trigger twins@[i]]
                        0 <= i < twins@.len() && i < m.class(id)[a].kids().len() ==> stands_for(
                            m,
                            m.class(id)[a].kids()[i],
                            twins@[i],
                            s,
                        );
                assert(m.class(id)[a].same_op(&node));
                assert forall|i: int|
                    #![trigger children@[i]]
                    0 <= i < children@.len() && i < m.class(id)[a].kids().len() implies stands_for(
                    m,
                    m.class(id)[a].kids()[i],
                    children@[i],
                    s,
                ) by {
                    assert(stands_for(m, m.class(id)[a].kids()[i], twins@[i], s));
                }
            }
        },
        _ => {},
    }
}

} // verus!
