//! The language interface.
//!
//! `Id` identifies e-classes. `Language` is the trait a term language
//! implements so that the generic engine can work on it.

use std::hash::Hash;
use vstd::prelude::*;
use vstd::std_specs::cmp::PartialEqSpec;
use vstd::std_specs::convert::{FromSpec, FromSpecImpl};
use vstd::std_specs::hash::obeys_key_model;

verus! {

/// Identifier for an e-class. Canonicalize with `EGraph::find` before use.
#[derive(Clone, Copy, PartialEq, Eq, Hash, PartialOrd, Ord, Debug, Default, Structural)]
pub struct Id(pub u32);

impl Id {
    /// A placeholder id, for pattern template nodes whose child ids are
    /// ignored (only the operator and the arity matter).
    pub fn placeholder() -> (id: Id)
        ensures
            id == Id(0),
    {
        Id(0)
    }

    /// The position that this id names in the tables of an e-graph.
    pub open spec fn at(self) -> int {
        self.0 as int
    }
}

impl From<u8> for Id {
    fn from(v: u8) -> (id: Self) {
        Id(v as u32)
    }
}

impl FromSpecImpl<u8> for Id {
    open spec fn obeys_from_spec() -> bool {
        true
    }

    open spec fn from_spec(v: u8) -> Self {
        Id(v as u32)
    }
}

impl From<u16> for Id {
    fn from(v: u16) -> (id: Self) {
        Id(v as u32)
    }
}

impl FromSpecImpl<u16> for Id {
    open spec fn obeys_from_spec() -> bool {
        true
    }

    open spec fn from_spec(v: u16) -> Self {
        Id(v as u32)
    }
}

impl From<u32> for Id {
    fn from(v: u32) -> (id: Self) {
        Id(v)
    }
}

impl FromSpecImpl<u32> for Id {
    open spec fn obeys_from_spec() -> bool {
        true
    }

    open spec fn from_spec(v: u32) -> Self {
        Id(v)
    }
}

impl From<i8> for Id {
    fn from(v: i8) -> (id: Self) {
        Id(#[verifier::truncate] (v as u32))
    }
}

impl FromSpecImpl<i8> for Id {
    open spec fn obeys_from_spec() -> bool {
        true
    }

    open spec fn from_spec(v: i8) -> Self {
        Id(v as u32)
    }
}

impl From<i16> for Id {
    fn from(v: i16) -> (id: Self) {
        Id(#[verifier::truncate] (v as u32))
    }
}

impl FromSpecImpl<i16> for Id {
    open spec fn obeys_from_spec() -> bool {
        true
    }

    open spec fn from_spec(v: i16) -> Self {
        Id(v as u32)
    }
}

impl From<i32> for Id {
    fn from(v: i32) -> (id: Self) {
        Id(#[verifier::truncate] (v as u32))
    }
}

impl FromSpecImpl<i32> for Id {
    open spec fn obeys_from_spec() -> bool {
        true
    }

    open spec fn from_spec(v: i32) -> Self {
        Id(v as u32)
    }
}

impl From<usize> for Id {
    fn from(v: usize) -> (id: Self) {
        Id(#[verifier::truncate] (v as u32))
    }
}

impl FromSpecImpl<usize> for Id {
    open spec fn obeys_from_spec() -> bool {
        true
    }

    open spec fn from_spec(v: usize) -> Self {
        Id(v as u32)
    }
}

impl From<isize> for Id {
    fn from(v: isize) -> (id: Self) {
        Id(#[verifier::truncate] (v as u32))
    }
}

impl FromSpecImpl<isize> for Id {
    open spec fn obeys_from_spec() -> bool {
        true
    }

    open spec fn from_spec(v: isize) -> Self {
        Id(v as u32)
    }
}

/// A term language: an operator type whose nodes carry child e-class ids.
///
/// The spec functions describe a node: its child ids, the same operator over
/// other children, whether two nodes have the same operator, its own cost and
/// how it is rendered. An implementation that is to be reasoned about
/// overrides them; [`lawful`] says how they have to fit together.
pub trait Language: Clone + PartialEq + Eq + Hash {
    /// The child e-class ids, in order.
    open spec fn kids(&self) -> Seq<Id> {
        arbitrary()
    }

    /// The node with this operator and the children `ids`.
    open spec fn with_kids(&self, ids: Seq<Id>) -> Self {
        arbitrary()
    }

    /// Same operator and same non-child payload, whatever the children.
    open spec fn same_op(&self, other: &Self) -> bool {
        arbitrary()
    }

    /// The cost of this single operator.
    open spec fn weight(&self) -> usize {
        arbitrary()
    }

    /// The text of this node over the texts of its children.
    open spec fn rendered(&self, parts: Seq<Seq<char>>) -> Seq<char> {
        arbitrary()
    }

    /// Whether `self` and `other` are the same operator, ignoring the specific
    /// child ids. Used for e-matching and congruence.
    fn matches(&self, other: &Self) -> (same: bool)
        ensures
            same == self.same_op(other),
    ;

    /// This node's child e-class ids.
    fn children(&self) -> (ids: &[Id])
        ensures
            ids@ == self.kids(),
    ;

    /// Mutable access to this node's child e-class ids.
    fn children_mut(&mut self) -> (ids: &mut [Id])
        ensures
            ids@ == old(self).kids(),
            final(ids)@.len() == ids@.len(),
            *final(self) == old(self).with_kids(final(ids)@),
    ;

    /// Cost of this single operator (excluding children), 1 by default.
    fn cost(&self) -> (own: usize)
        default_ensures
            own == 1,
    {
        1
    }

    /// Render this node given its already rendered children.
    fn display(&self, children: &[String]) -> (text: String)
        ensures
            text@ == self.rendered(texts(children@)),
    ;
}

/// The contents of a sequence of strings.
pub open spec fn texts(strings: Seq<String>) -> Seq<Seq<char>> {
    Seq::new(strings.len(), |i: int| strings[i]@)
}

/// What the engine relies on in a language: nodes can be hash table keys, a
/// clone is the same node, `==` is equality, `cost` returns the weight, the
/// same-operator relation is an equivalence that ignores children, and a node
/// is determined by its operator and its children.
#[verifier::opaque]
pub open spec fn lawful<L: Language>() -> bool {
    &&& obeys_key_model::<L>()
    &&& L::obeys_eq_spec()
    &&& forall|a: L, b: L| #[trigger] a.eq_spec(&b) <==> a == b
    &&& forall|a: L, b: L| #[trigger] cloned(a, b) ==> a == b
    &&& forall|a: L, own: usize| #[trigger]
        call_ensures(L::cost, (&a,), own) ==> own == a.weight()
    &&& forall|a: L, ids: Seq<Id>|
        ids.len() == a.kids().len() ==> (#[trigger] a.with_kids(ids)).kids() == ids && a.same_op(
            &a.with_kids(ids),
        )
    &&& forall|a: L| #[trigger] a.same_op(&a)
    &&& forall|a: L, b: L| #[trigger] a.same_op(&b) ==> b.same_op(&a)
    &&& forall|a: L, b: L, c: L| #[trigger]
        a.same_op(&b) && #[trigger] b.same_op(&c) ==> a.same_op(&c)
    &&& forall|a: L, b: L| #[trigger] a.same_op(&b) && a.kids() == b.kids() ==> a == b
}

/// A clone of a node is that node.
pub proof fn lemma_clone<L: Language>(a: &L, b: &L)
    requires
        lawful::<L>(),
        cloned(*a, *b),
    ensures
        *a == *b,
{
    reveal(lawful);
}

/// Nodes of a lawful language can be hash table keys.
pub proof fn lemma_key<L: Language>()
    requires
        lawful::<L>(),
    ensures
        obeys_key_model::<L>(),
{
    reveal(lawful);
}

/// What `with_kids` does: it replaces the children and keeps the operator.
pub proof fn lemma_with_kids<L: Language>(a: &L, ids: Seq<Id>)
    requires
        lawful::<L>(),
        ids.len() == a.kids().len(),
    ensures
        a.with_kids(ids).kids() == ids,
        a.same_op(&a.with_kids(ids)),
        a.with_kids(ids).same_op(a),
{
    reveal(lawful);
}

/// Two nodes are equal exactly when operator and children agree.
pub proof fn lemma_same_node<L: Language>(a: &L, b: &L)
    requires
        lawful::<L>(),
    ensures
        *a == *b <==> a.same_op(b) && a.kids() == b.kids(),
{
    reveal(lawful);
}

/// The same-operator relation is an equivalence.
pub proof fn lemma_same_op<L: Language>(a: &L, b: &L, c: &L)
    requires
        lawful::<L>(),
    ensures
        a.same_op(a),
        a.same_op(b) == b.same_op(a),
        a.same_op(b) && b.same_op(c) ==> a.same_op(c),
{
    reveal(lawful);
}

/// A clone of a node, known to be the node itself.
pub(crate) fn copy_node<L: Language>(node: &L) -> (copy: L)
    requires
        lawful::<L>(),
    ensures
        copy == *node,
{
    let copy = node.clone();
    proof {
        lemma_clone(node, &copy);
    }
    copy
}

/// Whether two nodes are equal.
pub(crate) fn equal_nodes<L: Language>(a: &L, b: &L) -> (same: bool)
    requires
        lawful::<L>(),
    ensures
        same == (*a == *b),
{
    proof {
        reveal(lawful);
    }
    *a == *b
}

/// A number that an id can have makes that id.
pub proof fn law_id_from_number(a: u8, b: u16, c: u32, d: usize, e: i8, f: i16, g: i32, h: isize)
    ensures
        <Id as FromSpec<u8>>::from_spec(a).at() == a,
        <Id as FromSpec<u16>>::from_spec(b).at() == b,
        <Id as FromSpec<u32>>::from_spec(c).at() == c,
        d <= u32::MAX ==> <Id as FromSpec<usize>>::from_spec(d).at() == d,
        e >= 0 ==> <Id as FromSpec<i8>>::from_spec(e).at() == e,
        f >= 0 ==> <Id as FromSpec<i16>>::from_spec(f).at() == f,
        g >= 0 ==> <Id as FromSpec<i32>>::from_spec(g).at() == g,
        0 <= h <= u32::MAX ==> <Id as FromSpec<isize>>::from_spec(h).at() == h,
{
}

} // verus!
