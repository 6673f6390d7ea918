//! Rewrite rules: patterns, substitutions, and the rule type.
//!
//! This module is the declarative half of the engine: it defines what a
//! rewrite rule looks like. The operational half (matching, instantiation and
//! the saturation loop) lives on [`EGraph`].
//!
//! A rule has three moving parts, each of which can be static (a fixed
//! [`Pattern`]) or dynamic (code):
//!
//! | part  | static form                                   | dynamic form |
//! |-------|-----------------------------------------------|--------------|
//! | LHS   | [`Pattern`] matched by the built-in e-matcher | [`Matcher`]: you compute the [`Subst`]s |
//! | RHS   | [`Pattern`] template, instantiated from the match | [`Applier`]: you build and return the result class |
//! | guard | always fires                                  | [`Condition`]: a predicate over the match |

use super::lang::{Id, Language};
use super::matching::{all_bound_in, bound_in, bounds};
use super::{ClassData, EGraph};
use vstd::prelude::*;

verus! {

/// A pattern over language `L`.
///
/// * `Var` matches any e-class and binds it by name.
/// * `Op` matches nodes whose operator equals that of `node` (via
///   [`Language::matches`]) and recursively matches `children`. The child ids
///   inside `node` are placeholders; only its operator and arity matter.
#[verifier::reject_recursive_types(L)]
pub enum Pattern<L: Language> {
    Var(String),
    Op { node: L, children: Vec<Pattern<L>> },
}

impl<L: Language> Clone for Pattern<L> {
    fn clone(&self) -> (copy: Self)
        ensures
            self.copied_by(&copy),
        decreases self,
    {
        match self {
            Pattern::Var(name) => Pattern::Var(name.clone()),
            Pattern::Op { node, children } => {
                let mut copies: Vec<Pattern<L>> = Vec::new();
                let mut i: usize = 0;
                while i < children.len()
                    invariant
                        i <= children.len(),
                        copies@.len() == i,
                        decreases_to!(self => children@),
                        forall|j: int|
                            #![trigger children@[j]]
                            0 <= j < i ==> children@[j].copied_by(&copies@[j]),
                    decreases children.len() - i,
                {
                    assert(decreases_to!(children@ => children@[i as int]));
                    let copy = children[i].clone();
                    copies.push(copy);
                    i = i + 1;
                }
                Pattern::Op { node: node.clone(), children: copies }
            },
        }
    }
}

impl<L: Language> Pattern<L> {
    /// `copy` has the same names, clones of the same nodes and the same shape.
    pub open spec fn copied_by(&self, copy: &Pattern<L>) -> bool
        decreases self,
    {
        match (self, copy) {
            (Pattern::Var(a), Pattern::Var(b)) => a@ == b@,
            (Pattern::Op { node: a, children: ps }, Pattern::Op { node: b, children: qs }) => {
                &&& cloned(*a, *b)
                &&& ps@.len() == qs@.len()
                &&& forall|i: int|
                    #![trigger ps@[i]]
                    0 <= i < ps@.len() ==> ps@[i].copied_by(&qs@[i])
            },
            _ => false,
        }
    }

    /// Build an operator pattern from a template `node` and its sub-patterns.
    pub fn op(node: L, children: Vec<Pattern<L>>) -> (pattern: Self)
        ensures
            pattern == (Pattern::Op { node, children }),
    {
        Pattern::Op { node, children }
    }

    /// Build a variable pattern.
    pub fn var(name: &str) -> (pattern: Self)
        ensures
            pattern is Var,
            pattern->Var_0@ == name@,
    {
        Pattern::Var(name.to_owned())
    }

    /// The variable `name` occurs in this pattern.
    pub open spec fn uses(&self, name: Seq<char>) -> bool
        decreases self,
    {
        match self {
            Pattern::Var(own) => own@ == name,
            Pattern::Op { node, children } => exists|i: int|
                #![trigger children@[i]]
                0 <= i < children@.len() && children@[i].uses(name),
        }
    }

    /// All variables of this pattern are bound by `bound`.
    pub open spec fn closed_by(&self, bound: Map<Seq<char>, Id>) -> bool
        decreases self,
    {
        match self {
            Pattern::Var(own) => bound.contains_key(own@),
            Pattern::Op { node, children } => forall|i: int|
                #![trigger children@[i]]
                0 <= i < children@.len() ==> children@[i].closed_by(bound),
        }
    }

    /// Every operator in this pattern has one sub-pattern for each child of its
    /// template.
    pub open spec fn regular(&self) -> bool
        decreases self,
    {
        match self {
            Pattern::Var(own) => true,
            Pattern::Op { node, children } => {
                &&& children@.len() == node.kids().len()
                &&& forall|i: int|
                    #![trigger children@[i]]
                    0 <= i < children@.len() ==> children@[i].regular()
            },
        }
    }

    /// The template ids that no sub-pattern replaces are below `n`.
    pub open spec fn fits_in(&self, n: nat) -> bool
        decreases self,
    {
        match self {
            Pattern::Var(own) => true,
            Pattern::Op { node, children } => {
                &&& forall|j: int|
                    #![trigger node.kids()[j]]
                    children@.len() <= j < node.kids().len() ==> node.kids()[j].at() < n
                &&& forall|i: int|
                    #![trigger children@[i]]
                    0 <= i < children@.len() ==> children@[i].fits_in(n)
            },
        }
    }
}

/// Bindings from pattern variable name to matched e-class.
pub struct Subst {
    entries: Vec<(String, Id)>,
}

/// What a list of bindings says of each name: the last one counts.
spec fn bindings(entries: Seq<(String, Id)>) -> Map<Seq<char>, Id>
    decreases entries.len(),
{
    if entries.len() == 0 {
        Map::empty()
    } else {
        bindings(entries.drop_last()).insert(entries.last().0@, entries.last().1)
    }
}

proof fn lemma_bindings_last(entries: Seq<(String, Id)>, i: int)
    requires
        0 <= i < entries.len(),
        forall|k: int| #![trigger entries[k]] i < k < entries.len() ==> entries[k].0@ != entries[i].0@,
    ensures
        bindings(entries).contains_key(entries[i].0@),
        bindings(entries)[entries[i].0@] == entries[i].1,
    decreases entries.len(),
{
    if i < entries.len() - 1 {
        let less = entries.drop_last();
        assert forall|k: int| #![trigger less[k]] i < k < less.len() implies less[k].0@
            != less[i].0@ by {
            assert(entries[k].0@ != entries[i].0@);
        }
        lemma_bindings_last(less, i);
        assert(entries[entries.len() - 1].0@ != entries[i].0@);
    }
}

proof fn lemma_bindings_none(entries: Seq<(String, Id)>, name: Seq<char>)
    requires
        forall|k: int| #![trigger entries[k]] 0 <= k < entries.len() ==> entries[k].0@ != name,
    ensures
        !bindings(entries).contains_key(name),
    decreases entries.len(),
{
    if entries.len() > 0 {
        let less = entries.drop_last();
        assert forall|k: int| #![trigger less[k]] 0 <= k < less.len() implies less[k].0@ != name by {
            assert(entries[k].0@ != name);
        }
        lemma_bindings_none(less, name);
        assert(entries[entries.len() - 1].0@ != name);
    }
}

proof fn lemma_bindings_update(entries: Seq<(String, Id)>, i: int, new: (String, Id))
    requires
        0 <= i < entries.len(),
        new.0@ == entries[i].0@,
        forall|k: int| #![trigger entries[k]] i < k < entries.len() ==> entries[k].0@ != entries[i].0@,
    ensures
        bindings(entries.update(i, new)) == bindings(entries).insert(new.0@, new.1),
    decreases entries.len(),
{
    let less = entries.drop_last();
    if i == entries.len() - 1 {
        assert(entries.update(i, new).drop_last() =~= less);
        assert(bindings(entries).insert(new.0@, new.1) =~= bindings(less).insert(new.0@, new.1));
    } else {
        assert forall|k: int| #![trigger less[k]] i < k < less.len() implies less[k].0@
            != less[i].0@ by {
            assert(entries[k].0@ != entries[i].0@);
        }
        lemma_bindings_update(less, i, new);
        assert(entries.update(i, new).drop_last() =~= less.update(i, new));
        assert(entries[entries.len() - 1].0@ != entries[i].0@);
        assert(bindings(entries.update(i, new)) =~= bindings(entries).insert(new.0@, new.1));
    }
}

impl View for Subst {
    type V = Map<Seq<char>, Id>;

    closed spec fn view(&self) -> Map<Seq<char>, Id> {
        bindings(self.entries@)
    }
}

impl Clone for Subst {
    fn clone(&self) -> (copy: Self)
        ensures
            copy@ == self@,
    {
        let mut entries: Vec<(String, Id)> = Vec::new();
        let mut i: usize = 0;
        while i < self.entries.len()
            invariant
                i <= self.entries.len(),
                entries@.len() == i,
                bindings(entries@) == bindings(self.entries@.take(i as int)),
            decreases self.entries.len() - i,
        {
            let ghost before = entries@;
            let ghost done = self.entries@.take(i as int);
            let name = self.entries[i].0.clone();
            let id = self.entries[i].1;
            entries.push((name, id));
            i = i + 1;
            proof {
                assert(entries@.drop_last() =~= before);
                assert(self.entries@.take(i as int).drop_last() =~= done);
            }
        }
        assert(self.entries@.take(i as int) =~= self.entries@);
        Subst { entries }
    }
}

impl Default for Subst {
    fn default() -> (subst: Self)
        ensures
            subst@ == Map::<Seq<char>, Id>::empty(),
    {
        Subst { entries: Vec::new() }
    }
}

impl Subst {
    /// No bindings.
    pub fn new() -> (subst: Self)
        ensures
            subst@ == Map::<Seq<char>, Id>::empty(),
    {
        Subst { entries: Vec::new() }
    }

    /// Where `name` is bound.
    fn position(&self, name: &String) -> (at: Option<usize>)
        ensures
            match at {
                Some(i) => {
                    &&& i < self.entries@.len()
                    &&& self.entries@[i as int].0@ == name@
                    &&& forall|k: int|
                        #![trigger self.entries@[k]]
                        i < k < self.entries@.len() ==> self.entries@[k].0@ != name@
                },
                None => forall|k: int|
                    #![trigger self.entries@[k]]
                    0 <= k < self.entries@.len() ==> self.entries@[k].0@ != name@,
            },
    {
        let mut i: usize = self.entries.len();
        while i > 0
            invariant
                i <= self.entries@.len(),
                forall|k: int|
                    #![trigger self.entries@[k]]
                    i <= k < self.entries@.len() ==> self.entries@[k].0@ != name@,
            decreases i,
        {
            i = i - 1;
            if self.entries[i].0 == *name {
                return Some(i);
            }
        }
        None
    }

    /// The e-class bound to `name`, if any.
    pub fn get(&self, name: &str) -> (found: Option<&Id>)
        ensures
            match found {
                Some(id) => self@.contains_key(name@) && self@[name@] == *id,
                None => !self@.contains_key(name@),
            },
    {
        let owned: String = name.to_owned();
        match self.position(&owned) {
            Some(i) => {
                proof {
                    lemma_bindings_last(self.entries@, i as int);
                }
                Some(&self.entries[i].1)
            },
            None => {
                proof {
                    lemma_bindings_none(self.entries@, name@);
                }
                None
            },
        }
    }

    /// Bind `name` to `id`; returns what it was bound to before.
    pub fn insert(&mut self, name: String, id: Id) -> (before: Option<Id>)
        ensures
            final(self)@ == old(self)@.insert(name@, id),
            before == (if old(self)@.contains_key(name@) {
                Some(old(self)@[name@])
            } else {
                None
            }),
    {
        match self.position(&name) {
            Some(i) => {
                let was = self.entries[i].1;
                proof {
                    lemma_bindings_last(self.entries@, i as int);
                    lemma_bindings_update(self.entries@, i as int, (name, id));
                }
                self.entries.set(i, (name, id));
                Some(was)
            },
            None => {
                proof {
                    lemma_bindings_none(self.entries@, name@);
                    assert(self.entries@.push((name, id)).drop_last() =~= self.entries@);
                }
                self.entries.push((name, id));
                None
            },
        }
    }
}

/// Reserved [`Subst`] key under which the engine records the matched LHS
/// e-class before invoking a dynamic RHS [`Applier`] or a [`Condition`].
/// The name is chosen not to collide with ordinary pattern variables.
pub const MATCHED_LHS: &'static str = "$lhs";

/// Look up the e-class bound to pattern variable `name` in a `subst`.
/// Convenience for writing rewrite conditions and matchers.
pub fn binding(subst: &Subst, name: &str) -> (found: Option<Id>)
    ensures
        found == (if subst@.contains_key(name@) {
            Some(subst@[name@])
        } else {
            None
        }),
{
    match subst.get(name) {
        Some(id) => Some(*id),
        None => None,
    }
}

/// A predicate that gates whether a [`Rewrite`] fires for a given match. It
/// receives the e-graph (so that it can read analysis data) and the bindings,
/// and returns `true` to allow the rewrite. Closures are conditions.
pub trait Condition<L: Language, N: ClassData> {
    /// The condition can be asked about this match.
    open spec fn admits(&self, egraph: &EGraph<L, N>, subst: &Subst) -> bool {
        true
    }

    /// The condition may answer `yes` for this match.
    open spec fn says(&self, egraph: &EGraph<L, N>, subst: &Subst, yes: bool) -> bool {
        true
    }

    fn holds(&self, egraph: &EGraph<L, N>, subst: &Subst) -> (yes: bool)
        requires
            egraph.wf(),
            bound_in(egraph.model(), subst@),
            self.admits(egraph, subst),
        ensures
            self.says(egraph, subst, yes),
    ;
}

impl<L: Language, N: ClassData, F: Fn(&EGraph<L, N>, &Subst) -> bool> Condition<L, N> for F {
    open spec fn admits(&self, egraph: &EGraph<L, N>, subst: &Subst) -> bool {
        call_requires(*self, (egraph, subst))
    }

    open spec fn says(&self, egraph: &EGraph<L, N>, subst: &Subst, yes: bool) -> bool {
        call_ensures(*self, (egraph, subst), yes)
    }

    fn holds(&self, egraph: &EGraph<L, N>, subst: &Subst) -> (yes: bool) {
        self(egraph, subst)
    }
}

/// A dynamic left-hand side: given the e-graph and a candidate e-class,
/// produce any number of substitutions. Return none to match nothing for the
/// given class. Closures are matchers.
///
/// Use it when the set of matches cannot be expressed structurally, e.g. for
/// matching modulo commutativity, or selecting classes by analysis data.
pub trait Matcher<L: Language, N: ClassData> {
    /// The matcher can be asked about this class, and binds known ids only.
    open spec fn admits(&self, egraph: &EGraph<L, N>, id: Id) -> bool {
        true
    }

    /// Every substitution that the matcher produces binds `name`.
    open spec fn binds(&self, name: Seq<char>) -> bool {
        false
    }

    /// The matcher may produce these substitutions for this class.
    open spec fn finds(&self, egraph: &EGraph<L, N>, id: Id, substs: &Vec<Subst>) -> bool {
        true
    }

    fn find_matches(&self, egraph: &EGraph<L, N>, id: Id) -> (substs: Vec<Subst>)
        requires
            egraph.wf(),
            egraph.model().has(id),
            self.admits(egraph, id),
        ensures
            self.finds(egraph, id, &substs),
            all_bound_in(egraph.model(), bounds(substs@)),
            forall|i: int, name: Seq<char>|
                #![trigger substs@[i]@.contains_key(name)]
                0 <= i < substs@.len() && self.binds(name) ==> substs@[i]@.contains_key(name),
    ;
}

impl<L: Language, N: ClassData, F: Fn(&EGraph<L, N>, Id) -> Vec<Subst>> Matcher<L, N> for F {
    open spec fn admits(&self, egraph: &EGraph<L, N>, id: Id) -> bool {
        &&& call_requires(*self, (egraph, id))
        &&& forall|substs: Vec<Subst>| #[trigger]
            call_ensures(*self, (egraph, id), substs) ==> all_bound_in(
                egraph.model(),
                bounds(substs@),
            )
    }

    open spec fn binds(&self, name: Seq<char>) -> bool {
        forall|egraph: &EGraph<L, N>, id: Id, substs: Vec<Subst>, i: int|
            #![trigger call_ensures(*self, (egraph, id), substs), substs@[i]@.contains_key(name)]
            call_ensures(*self, (egraph, id), substs) && 0 <= i < substs@.len()
                ==> substs@[i]@.contains_key(name)
    }

    open spec fn finds(&self, egraph: &EGraph<L, N>, id: Id, substs: &Vec<Subst>) -> bool {
        call_ensures(*self, (egraph, id), *substs)
    }

    fn find_matches(&self, egraph: &EGraph<L, N>, id: Id) -> (substs: Vec<Subst>) {
        self(egraph, id)
    }
}

/// A dynamic right-hand side: given the e-graph and the match bindings, build
/// (and add) a term, returning its e-class to merge with the matched class, or
/// `None` to decline.
pub trait Applier<L: Language, N: ClassData> {
    /// The applier may turn the graph `before` into `after` and return `id`.
    open spec fn does(
        &self,
        before: &EGraph<L, N>,
        subst: &Subst,
        after: &EGraph<L, N>,
        id: Option<Id>,
    ) -> bool {
        true
    }

    fn apply(&self, egraph: &mut EGraph<L, N>, subst: &Subst) -> (id: Option<Id>)
        requires
            old(egraph).wf(),
            bound_in(old(egraph).model(), subst@),
        ensures
            self.does(old(egraph), subst, final(egraph), id),
            final(egraph).wf(),
            old(egraph).grows_into(final(egraph)),
            id matches Some(made) ==> final(egraph).model().has(made),
    ;
}

/// Like [`Applier`], but the engine also hands over the matched LHS e-node.
/// For a static [`Pattern`] LHS this is the e-node whose operator the pattern
/// matched; for a dynamic [`Matcher`] LHS it is a representative node of the
/// matched class.
pub trait NodeApplier<L: Language, N: ClassData> {
    /// The applier may turn the graph `before` into `after` and return `id`.
    open spec fn does(
        &self,
        before: &EGraph<L, N>,
        subst: &Subst,
        node: &L,
        after: &EGraph<L, N>,
        id: Option<Id>,
    ) -> bool {
        true
    }

    fn apply(&self, egraph: &mut EGraph<L, N>, subst: &Subst, node: &L) -> (id: Option<Id>)
        requires
            old(egraph).wf(),
            bound_in(old(egraph).model(), subst@),
            old(egraph).model().knows(*node),
        ensures
            self.does(old(egraph), subst, node, final(egraph), id),
            final(egraph).wf(),
            old(egraph).grows_into(final(egraph)),
            id matches Some(made) ==> final(egraph).model().has(made),
    ;
}

/// The left-hand side of a rewrite: either a static pattern (matched by the
/// built-in e-matcher) or a dynamic [`Matcher`].
#[verifier::reject_recursive_types(L)]
#[verifier::reject_recursive_types(N)]
pub enum Lhs<L: Language, N: ClassData> {
    /// A structural pattern.
    Pattern(Pattern<L>),
    /// Code that computes substitutions from a candidate e-class.
    Dynamic(Box<dyn Matcher<L, N>>),
}

/// The right-hand side of a rewrite: either a static pattern template or a
/// dynamic applier.
#[verifier::reject_recursive_types(L)]
#[verifier::reject_recursive_types(N)]
pub enum Rhs<L: Language, N: ClassData> {
    /// A fixed template; holes are filled from the substitution.
    Pattern(Pattern<L>),
    /// Code that computes the resulting e-class from the match.
    Dynamic(Box<dyn Applier<L, N>>),
    /// Like `Dynamic`, but also receives the matched LHS e-node.
    DynamicNode(Box<dyn NodeApplier<L, N>>),
}

/// A rewrite rule `lhs => rhs`, optionally guarded by a [`Condition`].
#[verifier::reject_recursive_types(L)]
#[verifier::reject_recursive_types(N)]
pub struct Rewrite<L: Language, N: ClassData = ()> {
    pub name: &'static str,
    pub lhs: Lhs<L, N>,
    pub rhs: Rhs<L, N>,
    /// If present, the rule fires only when this predicate returns `true`.
    pub condition: Option<Box<dyn Condition<L, N>>>,
}

impl<L: Language, N: ClassData> Rewrite<L, N> {
    /// An unconditional rewrite `lhs => rhs` with a static pattern RHS.
    pub fn new(name: &'static str, lhs: Pattern<L>, rhs: Pattern<L>) -> (rule: Self)
        ensures
            rule.name == name,
            rule.lhs == Lhs::<L, N>::Pattern(lhs),
            rule.rhs == Rhs::<L, N>::Pattern(rhs),
            rule.condition is None,
    {
        Rewrite { name, lhs: Lhs::Pattern(lhs), rhs: Rhs::Pattern(rhs), condition: None }
    }

    /// A conditional rewrite: fires only when `condition` holds for the match.
    pub fn conditional(
        name: &'static str,
        lhs: Pattern<L>,
        rhs: Pattern<L>,
        condition: impl Fn(&EGraph<L, N>, &Subst) -> bool + 'static,
    ) -> (rule: Self)
        ensures
            rule.name == name,
            rule.lhs == Lhs::<L, N>::Pattern(lhs),
            rule.rhs == Rhs::<L, N>::Pattern(rhs),
            rule.condition is Some,
            forall|egraph: &EGraph<L, N>, subst: &Subst| #[trigger]
                rule.condition->0.admits(egraph, subst) == call_requires(condition, (egraph, subst)),
            forall|egraph: &EGraph<L, N>, subst: &Subst, yes: bool| #[trigger]
                rule.condition->0.says(egraph, subst, yes) == call_ensures(
                    condition,
                    (egraph, subst),
                    yes,
                ),
    {
        Rewrite {
            name,
            lhs: Lhs::Pattern(lhs),
            rhs: Rhs::Pattern(rhs),
            condition: Some(Box::new(condition)),
        }
    }

    /// A dynamic rewrite: the RHS is computed by `applier` from the match.
    pub fn dynamic(
        name: &'static str,
        lhs: Pattern<L>,
        applier: Box<dyn Applier<L, N>>,
    ) -> (rule: Self)
        ensures
            rule.name == name,
            rule.lhs == Lhs::<L, N>::Pattern(lhs),
            rule.rhs == Rhs::<L, N>::Dynamic(applier),
            rule.condition is None,
    {
        Rewrite {
            name,
            lhs: Lhs::Pattern(lhs),
            rhs: Rhs::Dynamic(applier),
            condition: None,
        }
    }

    /// A rewrite whose left-hand side is a dynamic [`Matcher`]: the matcher
    /// computes the substitutions itself. Each substitution it returns is
    /// applied to the static template `rhs`, and the resulting class is merged
    /// with the candidate class the matcher ran on.
    pub fn dynamic_match(
        name: &'static str,
        matcher: impl Fn(&EGraph<L, N>, Id) -> Vec<Subst> + 'static,
        rhs: Pattern<L>,
    ) -> (rule: Self)
        ensures
            rule.name == name,
            rule.lhs is Dynamic,
            forall|egraph: &EGraph<L, N>, id: Id| #[trigger]
                rule.lhs->Dynamic_0.admits(egraph, id) == matcher.admits(egraph, id),
            forall|egraph: &EGraph<L, N>, id: Id, substs: &Vec<Subst>| #[trigger]
                rule.lhs->Dynamic_0.finds(egraph, id, substs) == call_ensures(
                    matcher,
                    (egraph, id),
                    *substs,
                ),
            forall|name: Seq<char>| #[trigger]
                rule.lhs->Dynamic_0.binds(name) == matcher.binds(name),
            rule.rhs == Rhs::<L, N>::Pattern(rhs),
            rule.condition is None,
    {
        Rewrite {
            name,
            lhs: Lhs::Dynamic(Box::new(matcher)),
            rhs: Rhs::Pattern(rhs),
            condition: None,
        }
    }

    /// Like [`dynamic_match`](Self::dynamic_match), but the RHS is also
    /// dynamic: both the matches and the result are computed.
    pub fn dynamic_match_apply(
        name: &'static str,
        matcher: impl Fn(&EGraph<L, N>, Id) -> Vec<Subst> + 'static,
        applier: Box<dyn Applier<L, N>>,
    ) -> (rule: Self)
        ensures
            rule.name == name,
            rule.lhs is Dynamic,
            forall|egraph: &EGraph<L, N>, id: Id| #[trigger]
                rule.lhs->Dynamic_0.admits(egraph, id) == matcher.admits(egraph, id),
            forall|egraph: &EGraph<L, N>, id: Id, substs: &Vec<Subst>| #[trigger]
                rule.lhs->Dynamic_0.finds(egraph, id, substs) == call_ensures(
                    matcher,
                    (egraph, id),
                    *substs,
                ),
            forall|name: Seq<char>| #[trigger]
                rule.lhs->Dynamic_0.binds(name) == matcher.binds(name),
            rule.rhs == Rhs::<L, N>::Dynamic(applier),
            rule.condition is None,
    {
        Rewrite {
            name,
            lhs: Lhs::Dynamic(Box::new(matcher)),
            rhs: Rhs::Dynamic(applier),
            condition: None,
        }
    }

    /// A dynamic rewrite like [`dynamic`](Self::dynamic), but the engine also
    /// passes the matched LHS e-node to `applier`.
    pub fn dynamic_with_node(
        name: &'static str,
        lhs: Pattern<L>,
        applier: Box<dyn NodeApplier<L, N>>,
    ) -> (rule: Self)
        ensures
            rule.name == name,
            rule.lhs == Lhs::<L, N>::Pattern(lhs),
            rule.rhs == Rhs::<L, N>::DynamicNode(applier),
            rule.condition is None,
    {
        Rewrite {
            name,
            lhs: Lhs::Pattern(lhs),
            rhs: Rhs::DynamicNode(applier),
            condition: None,
        }
    }

    /// Like [`dynamic_match_apply`](Self::dynamic_match_apply), but the engine
    /// also passes a representative e-node of the candidate class to
    /// `applier`.
    pub fn dynamic_match_apply_with_node(
        name: &'static str,
        matcher: impl Fn(&EGraph<L, N>, Id) -> Vec<Subst> + 'static,
        applier: Box<dyn NodeApplier<L, N>>,
    ) -> (rule: Self)
        ensures
            rule.name == name,
            rule.lhs is Dynamic,
            forall|egraph: &EGraph<L, N>, id: Id| #[trigger]
                rule.lhs->Dynamic_0.admits(egraph, id) == matcher.admits(egraph, id),
            forall|egraph: &EGraph<L, N>, id: Id, substs: &Vec<Subst>| #[trigger]
                rule.lhs->Dynamic_0.finds(egraph, id, substs) == call_ensures(
                    matcher,
                    (egraph, id),
                    *substs,
                ),
            forall|name: Seq<char>| #[trigger]
                rule.lhs->Dynamic_0.binds(name) == matcher.binds(name),
            rule.rhs == Rhs::<L, N>::DynamicNode(applier),
            rule.condition is None,
    {
        Rewrite {
            name,
            lhs: Lhs::Dynamic(Box::new(matcher)),
            rhs: Rhs::DynamicNode(applier),
            condition: None,
        }
    }
}

} // verus!
