use std::cell::RefCell;
use std::rc::Rc;
use toolbox::egraph::config::RunConfig;
use toolbox::egraph::hooks::Hook;
use toolbox::egraph::lang::{Id, Language};
use toolbox::egraph::rewrite::{binding, Applier, NodeApplier, Pattern, Rewrite, Subst};
use toolbox::egraph::saturate::StopReason;
use toolbox::egraph::scheduler::{BackoffScheduler, RewriteScheduler};
use toolbox::egraph::{EGraph, Justification};

#[derive(Clone, PartialEq, Eq, Hash, Debug)]
enum Term {
    Leaf(&'static str),
    F([Id; 1]),
    G([Id; 2]),
}

impl Language for Term {
    fn matches(&self, other: &Self) -> bool {
        match (self, other) {
            (Term::Leaf(a), Term::Leaf(b)) => a == b,
            (Term::F(_), Term::F(_)) => true,
            (Term::G(_), Term::G(_)) => true,
            _ => false,
        }
    }

    fn children(&self) -> &[Id] {
        match self {
            Term::Leaf(_) => &[],
            Term::F(ids) => ids,
            Term::G(ids) => ids,
        }
    }

    fn children_mut(&mut self) -> &mut [Id] {
        match self {
            Term::Leaf(_) => &mut [],
            Term::F(ids) => ids,
            Term::G(ids) => ids,
        }
    }

    fn cost(&self) -> usize {
        1
    }

    fn display(&self, children: &[String]) -> String {
        match self {
            Term::Leaf(name) => name.to_string(),
            Term::F(_) => format!("F({})", children[0]),
            Term::G(_) => format!("G({}, {})", children[0], children[1]),
        }
    }
}

fn leaf(name: &'static str) -> Pattern<Term> {
    Pattern::op(Term::Leaf(name), vec![])
}

fn f(a: Pattern<Term>) -> Pattern<Term> {
    Pattern::op(Term::F([Id::placeholder()]), vec![a])
}

fn g(a: Pattern<Term>, b: Pattern<Term>) -> Pattern<Term> {
    Pattern::op(Term::G([Id::placeholder(); 2]), vec![a, b])
}

fn ab() -> Rewrite<Term> {
    Rewrite::new("ab", leaf("A"), leaf("B"))
}

/// All that can be read from a graph without changing it.
fn picture(graph: &EGraph<Term>) -> (Vec<(Id, Vec<Term>)>, usize, usize) {
    (graph.classes_snapshot(), graph.total_nodes(), graph.id_count())
}

#[test]
fn nodes_are_found_while_repair_is_pending() {
    let mut graph: EGraph<Term> = EGraph::new();
    let a = graph.add(Term::Leaf("A"));
    let b = graph.add(Term::Leaf("B"));
    let fa = graph.add(Term::F([a]));
    graph.add(Term::G([b, b]));
    graph.merge(a, b);
    assert_eq!(graph.lookup(&Term::F([a])), Some(fa));
    assert_eq!(graph.lookup(&Term::F([b])), Some(fa));
    assert_eq!(graph.lookup(&Term::F([fa])), None);
    let nodes = graph.total_nodes();
    assert_eq!(graph.add(Term::F([a])), fa);
    assert_eq!(graph.add(Term::F([b])), fa);
    assert_eq!(graph.total_nodes(), nodes);
    graph.rebuild();
    assert_eq!(graph.lookup(&Term::F([a])), Some(fa));
}

struct Witness(Rc<RefCell<Vec<Term>>>);

impl NodeApplier<Term, ()> for Witness {
    fn apply(&self, egraph: &mut EGraph<Term>, subst: &Subst, node: &Term) -> Option<Id> {
        let (x, y) = (binding(subst, "x")?, binding(subst, "y")?);
        let kids: Vec<Id> = node.children().iter().map(|kid| egraph.canonical_id(*kid)).collect();
        assert_eq!(kids, vec![egraph.canonical_id(x), egraph.canonical_id(y)]);
        self.0.borrow_mut().push(node.clone());
        None
    }
}

#[test]
fn node_appliers_get_the_node_of_their_match() {
    let mut graph: EGraph<Term> = EGraph::new();
    let a = graph.add(Term::Leaf("A"));
    let b = graph.add(Term::Leaf("B"));
    let left = graph.add(Term::G([a, b]));
    let right = graph.add(Term::G([b, a]));
    graph.merge(left, right);
    graph.rebuild();
    let seen = Rc::new(RefCell::new(Vec::new()));
    let lhs = g(Pattern::var("x"), Pattern::var("y"));
    let rule = Rewrite::dynamic_with_node("watch", lhs, Box::new(Witness(seen.clone())));
    graph.run(&[rule], RunConfig::with_iters(1));
    let seen = seen.borrow();
    assert_eq!(seen.len(), 2);
    assert!(seen.contains(&Term::G([a, b])));
    assert!(seen.contains(&Term::G([b, a])));
}

#[test]
fn a_banned_rule_fires_when_it_is_released() {
    for (iters, fired) in [(5, false), (6, true)] {
        let mut graph: EGraph<Term> = EGraph::new();
        let a = graph.add(Term::Leaf("A"));
        let b = graph.add(Term::Leaf("B"));
        let mut scheduler = BackoffScheduler::default();
        // Banned before iteration 1 + (2 << 1).
        RewriteScheduler::<Term, ()>::on_matches(&mut scheduler, 0, 0, "ab", 1001);
        let reason =
            graph.run_with_scheduler(&[ab()], RunConfig::with_iters(iters), &mut scheduler);
        assert_eq!(reason, StopReason::IterationLimit { limit: iters });
        assert_eq!(graph.canonical_id(a) == graph.canonical_id(b), fired);
    }
}

/// Enables rule 0 always and rule 1 from iteration 1 on.
struct Log(Vec<String>);

impl RewriteScheduler<Term, ()> for Log {
    fn is_enabled(&mut self, iter: usize, rule_idx: usize, name: &str) -> bool {
        self.0.push(format!("ask {iter} {rule_idx} {name}"));
        rule_idx == 0 || iter > 0
    }

    fn on_matches(&mut self, iter: usize, rule_idx: usize, name: &str, n_matches: usize) {
        self.0.push(format!("tell {iter} {rule_idx} {name} {n_matches}"));
    }
}

#[test]
fn the_scheduler_is_asked_and_told_once_per_rule() {
    let mut graph: EGraph<Term> = EGraph::new();
    let a = graph.add(Term::Leaf("A"));
    let fa = graph.add(Term::F([a]));
    graph.add(Term::F([fa]));
    let rules = [ab(), Rewrite::new("unwrap", f(Pattern::var("x")), Pattern::var("x"))];
    let mut log = Log(Vec::new());
    let reason = graph.run_with_scheduler(&rules, RunConfig::default(), &mut log);
    assert_eq!(reason, StopReason::Saturated { iterations: 3 });
    assert_eq!(
        log.0,
        vec![
            "ask 0 0 ab",
            "tell 0 0 ab 1",
            "ask 0 1 unwrap",
            "ask 1 0 ab",
            "tell 1 0 ab 1",
            "ask 1 1 unwrap",
            "tell 1 1 unwrap 2",
            "ask 2 0 ab",
            "tell 2 0 ab 1",
            "ask 2 1 unwrap",
            "tell 2 1 unwrap 1",
        ]
    );
}

struct Calls(Rc<RefCell<Vec<Id>>>);

impl Applier<Term, ()> for Calls {
    fn apply(&self, egraph: &mut EGraph<Term>, subst: &Subst) -> Option<Id> {
        let x = binding(subst, "x")?;
        self.0.borrow_mut().push(x);
        Some(egraph.add(Term::G([x, x])))
    }
}

/// Enables the rules of these numbers only.
struct Only(Vec<usize>);

impl RewriteScheduler<Term, ()> for Only {
    fn is_enabled(&mut self, _iter: usize, rule_idx: usize, _name: &str) -> bool {
        self.0.contains(&rule_idx)
    }

    fn on_matches(&mut self, _iter: usize, rule_idx: usize, _name: &str, _n_matches: usize) {
        assert!(self.0.contains(&rule_idx));
    }
}

#[test]
fn a_banned_applier_is_not_called() {
    for (on, calls, nodes) in [(vec![0], 0, 3), (vec![0, 1], 1, 4), (vec![], 0, 2)] {
        let mut graph: EGraph<Term> = EGraph::new();
        let a = graph.add(Term::Leaf("A"));
        let fa = graph.add(Term::F([a]));
        let seen = Rc::new(RefCell::new(Vec::new()));
        let rules =
            [ab(), Rewrite::dynamic("pair", f(Pattern::var("x")), Box::new(Calls(seen.clone())))];
        graph.run_with_scheduler(&rules, RunConfig::with_iters(1), &mut Only(on));
        assert_eq!(seen.borrow().len(), calls);
        assert_eq!(graph.total_nodes(), nodes);
        assert_eq!(graph.nodes(fa).len(), 1 + calls);
    }
}

#[test]
fn congruence_names_the_children_that_moved() {
    let mut graph: EGraph<Term> = EGraph::new();
    let a = graph.add(Term::Leaf("A"));
    let b = graph.add(Term::Leaf("B"));
    let c = graph.add(Term::Leaf("C"));
    let left = graph.add(Term::G([a, c]));
    let right = graph.add(Term::G([b, c]));
    graph.merge(a, b);
    graph.rebuild();
    let chain = graph.explain(left, right).unwrap();
    assert_eq!(chain.len(), 2);
    assert!(matches!(&chain[1].1, Justification::Congruence(pairs) if *pairs == vec![(b, a)]));
    assert_eq!(
        graph.explain_equivalence(left, right),
        Some(
            "G(A, C)\n = G(B, C) [by congruence]\n where B = A:\n   B\n    = A [by congruence]\n"
                .to_string()
        )
    );
    assert_eq!(graph.check_proof(left, right), Ok(()));
}

#[test]
fn no_iteration_starts_at_the_limits() {
    let mut graph: EGraph<Term> = EGraph::new();
    let a = graph.add(Term::Leaf("A"));
    let b = graph.add(Term::Leaf("B"));
    let before = picture(&graph);
    let mut log = Log(Vec::new());
    let reason = graph.run_with_scheduler(&[ab()], RunConfig::with_iters(0), &mut log);
    assert_eq!(reason, StopReason::IterationLimit { limit: 0 });
    let config = RunConfig::with_iters(9).node_limit(2);
    let reason = graph.run_with_scheduler(&[ab()], config, &mut log);
    assert_eq!(reason, StopReason::NodeLimit { limit: 2, iterations: 0 });
    assert_eq!(picture(&graph), before);
    assert_ne!(graph.canonical_id(a), graph.canonical_id(b));
    assert!(log.0.is_empty());
}

#[test]
fn only_the_sides_of_rules_bring_new_nodes() {
    let mut graph: EGraph<Term> = EGraph::new();
    let a = graph.add(Term::Leaf("A"));
    let fa = graph.add(Term::F([a]));
    graph.run(&[ab()], RunConfig::default());
    assert_eq!(graph.total_nodes(), 3);
    assert_eq!(graph.nodes(a).len(), 2);
    assert_eq!(graph.nodes(fa).len(), 1);
}

#[test]
fn a_run_is_explained_by_rules_and_congruence() {
    let mut graph: EGraph<Term> = EGraph::new();
    let a = graph.add(Term::Leaf("A"));
    let b = graph.add(Term::Leaf("B"));
    let fa = graph.add(Term::F([a]));
    let fb = graph.add(Term::F([b]));
    graph.run(&[ab()], RunConfig::default());
    assert_eq!(
        graph.explain_equivalence(fa, fb),
        Some("F(A)\n = F(B) [by congruence]\n where B = A:\n   B\n    = A [by ab]\n".to_string())
    );
    assert_eq!(graph.explain_equivalence(a, fa), None);
}

#[test]
fn explanations_can_be_read_backwards() {
    let mut graph: EGraph<Term> = EGraph::new();
    let a = graph.add(Term::Leaf("A"));
    let b = graph.add(Term::Leaf("B"));
    let c = graph.add(Term::Leaf("C"));
    graph.run(&[ab()], RunConfig::default());
    graph.merge(b, c);
    let name = |step: &(Id, Justification)| match &step.1 {
        Justification::Rule(name) => *name,
        Justification::Congruence(_) => "congruence",
    };
    let there = graph.explain(a, c).unwrap();
    let back = graph.explain(c, a).unwrap();
    let steps: Vec<(Id, &str)> = there.iter().map(|step| (step.0, name(step))).collect();
    assert_eq!(steps, vec![(a, ""), (b, "ab"), (c, "congruence")]);
    let steps: Vec<(Id, &str)> = back.iter().map(|step| (step.0, name(step))).collect();
    assert_eq!(steps, vec![(c, ""), (b, "congruence"), (a, "ab")]);
}

#[test]
fn a_second_run_changes_nothing() {
    let mut graph: EGraph<Term> = EGraph::new();
    let a = graph.add(Term::Leaf("A"));
    let fa = graph.add(Term::F([a]));
    graph.add(Term::G([fa, a]));
    let (x, y) = (Pattern::var("x"), Pattern::var("y"));
    let rules = [ab(), Rewrite::new("swap", g(x.clone(), y.clone()), g(y, x))];
    let reason = graph.run(&rules, RunConfig::default());
    assert_eq!(reason, StopReason::Saturated { iterations: 2 });
    let before = picture(&graph);
    let reason = graph.run(&rules, RunConfig::default());
    assert_eq!(reason, StopReason::Saturated { iterations: 1 });
    assert_eq!(picture(&graph), before);
}

#[derive(Default)]
struct Heard {
    added: Vec<(Id, Term)>,
    merged: Vec<(Id, Id)>,
}

struct Ear(Rc<RefCell<Heard>>);

impl Hook<Term> for Ear {
    fn on_add(&mut self, id: Id, node: &Term) {
        self.0.borrow_mut().added.push((id, node.clone()));
    }

    fn on_merge(&mut self, survivor: Id, absorbed: Id) {
        self.0.borrow_mut().merged.push((survivor, absorbed));
    }
}

#[test]
fn a_new_node_gets_a_class_of_its_own() {
    let mut graph: EGraph<Term> = EGraph::new();
    let a = graph.add(Term::Leaf("A"));
    let b = graph.add(Term::Leaf("B"));
    graph.merge(a, b);
    graph.rebuild();
    let root = graph.canonical_id(b);
    let heard = Rc::new(RefCell::new(Heard::default()));
    graph.add_hook(Box::new(Ear(heard.clone())));
    let (before, nodes) = (graph.classes_snapshot(), graph.total_nodes());
    assert_eq!(graph.lookup(&Term::F([b])), None);
    let id = graph.add(Term::F([b]));
    assert_eq!(graph.nodes(id), &[Term::F([root])]);
    assert_eq!(graph.lookup(&Term::F([b])), Some(id));
    assert_eq!(graph.lookup(&Term::F([a])), Some(id));
    assert_eq!(graph.total_nodes(), nodes + 1);
    let after = graph.classes_snapshot();
    assert_eq!(&after[..before.len()], &before[..]);
    assert_eq!(heard.borrow().added, vec![(id, Term::F([root]))]);
    assert!(heard.borrow().merged.is_empty());
}

#[test]
fn a_rebuild_tells_of_every_class_it_absorbs() {
    let mut graph: EGraph<Term> = EGraph::new();
    let a = graph.add(Term::Leaf("A"));
    let b = graph.add(Term::Leaf("B"));
    let mut ids = vec![a, b];
    for _ in 0..4 {
        let n = ids.len();
        ids.push(graph.add(Term::F([ids[n - 2]])));
        ids.push(graph.add(Term::F([ids[n - 1]])));
    }
    graph.merge(a, b);
    let heard = Rc::new(RefCell::new(Heard::default()));
    graph.add_hook(Box::new(Ear(heard.clone())));
    let classes = graph.classes_snapshot().len();
    let roots: Vec<Id> = ids.iter().map(|id| graph.canonical_id(*id)).collect();
    graph.rebuild();
    let heard = heard.borrow();
    assert!(heard.added.is_empty());
    assert_eq!(heard.merged.len(), classes - graph.classes_snapshot().len());
    assert_eq!(heard.merged.len(), 4);
    for (survivor, absorbed) in &heard.merged {
        assert!(roots.contains(absorbed));
        assert_ne!(graph.canonical_id(*absorbed), *absorbed);
        assert_eq!(graph.canonical_id(*absorbed), graph.canonical_id(*survivor));
    }
}
