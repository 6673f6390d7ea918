use std::cell::RefCell;
use std::rc::Rc;
use toolbox::egraph::config::RunConfig;
use toolbox::egraph::cost::{AstDepth, AstSize, CostFunction, LanguageCost};
use toolbox::egraph::extract::{improves, Expr};
use toolbox::egraph::hooks::Hook;
use toolbox::egraph::lang::{Id, Language};
use toolbox::egraph::rewrite::{
    binding, Applier, NodeApplier, Pattern, Rewrite, Subst, MATCHED_LHS,
};
use toolbox::egraph::saturate::StopReason;
use toolbox::egraph::scheduler::{BackoffScheduler, RewriteScheduler, SimpleScheduler};
use toolbox::egraph::{Analysis, ClassData, EGraph, Justification};

#[derive(Clone, PartialEq, Eq, Hash, Debug)]
enum Math {
    Num(i64),
    Var(&'static str),
    Neg([Id; 1]),
    Add([Id; 2]),
    Mul([Id; 2]),
}

impl Language for Math {
    fn matches(&self, other: &Self) -> bool {
        match (self, other) {
            (Math::Num(a), Math::Num(b)) => a == b,
            (Math::Var(a), Math::Var(b)) => a == b,
            (Math::Neg(_), Math::Neg(_)) => true,
            (Math::Add(_), Math::Add(_)) => true,
            (Math::Mul(_), Math::Mul(_)) => true,
            _ => false,
        }
    }

    fn children(&self) -> &[Id] {
        match self {
            Math::Num(_) | Math::Var(_) => &[],
            Math::Neg(ids) => ids,
            Math::Add(ids) | Math::Mul(ids) => ids,
        }
    }

    fn children_mut(&mut self) -> &mut [Id] {
        match self {
            Math::Num(_) | Math::Var(_) => &mut [],
            Math::Neg(ids) => ids,
            Math::Add(ids) | Math::Mul(ids) => ids,
        }
    }

    fn cost(&self) -> usize {
        match self {
            Math::Mul(_) => 5,
            _ => 1,
        }
    }

    fn display(&self, children: &[String]) -> String {
        match self {
            Math::Num(n) => n.to_string(),
            Math::Var(name) => name.to_string(),
            Math::Neg(_) => format!("(-{})", children[0]),
            Math::Add(_) => format!("({} + {})", children[0], children[1]),
            Math::Mul(_) => format!("({} * {})", children[0], children[1]),
        }
    }
}

fn v(name: &str) -> Pattern<Math> {
    Pattern::var(name)
}

fn num(n: i64) -> Pattern<Math> {
    Pattern::op(Math::Num(n), vec![])
}

fn neg(a: Pattern<Math>) -> Pattern<Math> {
    Pattern::op(Math::Neg([Id::placeholder()]), vec![a])
}

fn plus(a: Pattern<Math>, b: Pattern<Math>) -> Pattern<Math> {
    Pattern::op(Math::Add([Id::placeholder(); 2]), vec![a, b])
}

fn times(a: Pattern<Math>, b: Pattern<Math>) -> Pattern<Math> {
    Pattern::op(Math::Mul([Id::placeholder(); 2]), vec![a, b])
}

fn rules() -> Vec<Rewrite<Math>> {
    vec![
        Rewrite::new("add-zero", plus(v("x"), num(0)), v("x")),
        Rewrite::new("mul-one", times(v("x"), num(1)), v("x")),
        Rewrite::new("comm-add", plus(v("x"), v("y")), plus(v("y"), v("x"))),
        Rewrite::new("comm-mul", times(v("x"), v("y")), times(v("y"), v("x"))),
    ]
}

/// `(x * 1) + 0` and its parts.
fn sample() -> (EGraph<Math>, Id, Id) {
    let mut graph: EGraph<Math> = EGraph::new();
    let x = graph.add(Math::Var("x"));
    let one = graph.add(Math::Num(1));
    let zero = graph.add(Math::Num(0));
    let product = graph.add(Math::Mul([x, one]));
    let sum = graph.add(Math::Add([product, zero]));
    (graph, x, sum)
}

#[test]
fn a_run_saturates() {
    let (mut graph, x, sum) = sample();
    let reason = graph.run(&rules(), RunConfig::default());
    assert!(matches!(reason, StopReason::Saturated { .. }));
    assert_eq!(graph.find(x), graph.find(sum));
    assert_eq!(graph.check_invariants(), Ok(()));
    assert_eq!(graph.check_proof(x, sum), Ok(()));
    assert_eq!(graph.extract_best(sum, &mut AstSize).to_string(), "x");
}

#[test]
fn a_run_equates_only_what_the_rules_say() {
    let (mut graph, x, sum) = sample();
    let y = graph.add(Math::Var("y"));
    let more = graph.add(Math::Add([sum, y]));
    graph.run(&rules(), RunConfig::default());
    assert_ne!(graph.find(x), graph.find(y));
    assert_ne!(graph.find(more), graph.find(x));
    let swapped = graph.add(Math::Add([y, x]));
    assert_eq!(graph.find(more), graph.find(swapped));
}

#[test]
fn a_saturated_graph_has_nothing_left_to_do() {
    let (mut graph, _, _) = sample();
    graph.run(&rules(), RunConfig::default());
    let nodes = graph.total_nodes();
    let reason = graph.run(&rules(), RunConfig::default());
    assert_eq!(reason, StopReason::Saturated { iterations: 1 });
    assert_eq!(graph.total_nodes(), nodes);
}

#[test]
fn rules_are_named_in_explanations() {
    let (mut graph, x, sum) = sample();
    graph.run(&rules(), RunConfig::default());
    let chain = graph.explain(x, sum).unwrap();
    assert!(chain.iter().skip(1).all(|step| match &step.1 {
        Justification::Rule(name) => ["add-zero", "mul-one", "comm-add", "comm-mul"].contains(name),
        Justification::Congruence(_) => true,
    }));
}

#[test]
fn a_run_stops_at_the_node_limit() {
    let (mut graph, _, _) = sample();
    let reason = graph.run(&rules(), RunConfig::with_iters(10).node_limit(5));
    assert_eq!(reason, StopReason::NodeLimit { limit: 5, iterations: 0 });
    assert_eq!(reason.message(), "Stopped at node limit (5) after 0 iteration(s).");
    assert_eq!(graph.total_nodes(), 5);
}

#[test]
fn a_run_stops_at_the_iteration_limit() {
    let (mut graph, x, sum) = sample();
    let reason = graph.run(&rules(), RunConfig::with_iters(0));
    assert_eq!(reason, StopReason::IterationLimit { limit: 0 });
    assert_eq!(reason.message(), "Stopped at iteration limit (0).");
    assert_ne!(graph.find(x), graph.find(sum));
    let reason = graph.run(&rules(), RunConfig::with_iters(1));
    assert_eq!(reason, StopReason::IterationLimit { limit: 1 });
}

#[test]
fn ends_of_runs_are_reported() {
    assert_eq!(
        StopReason::Saturated { iterations: 3 }.message(),
        "Saturated after 3 iteration(s)."
    );
    assert_eq!(
        StopReason::OutOfIds { iterations: 3 }.message(),
        "Out of ids after 3 iteration(s)."
    );
}

#[test]
fn conditions_gate_rules() {
    let mut graph: EGraph<Math> = EGraph::new();
    let a = graph.add(Math::Num(2));
    let b = graph.add(Math::Num(3));
    let na = graph.add(Math::Neg([a]));
    let nb = graph.add(Math::Neg([b]));
    let rule = Rewrite::conditional("only-two", neg(v("x")), v("x"), |graph: &EGraph<Math>, subst: &Subst| {
        let id = binding(subst, "x").unwrap();
        graph.nodes(id).contains(&Math::Num(2))
    });
    graph.run(&[rule], RunConfig::default());
    assert_eq!(graph.find(a), graph.find(na));
    assert_ne!(graph.find(b), graph.find(nb));
}

struct Folder;

impl Applier<Math, ()> for Folder {
    fn apply(&self, egraph: &mut EGraph<Math>, subst: &Subst) -> Option<Id> {
        let (a, b) = (binding(subst, "x")?, binding(subst, "y")?);
        let value = |id: Id| match egraph.match_number(id) {
            Some(n) => Some(n),
            None => None,
        };
        let sum = value(a)? + value(b)?;
        Some(egraph.add(Math::Num(sum)))
    }
}

trait Numbers {
    fn match_number(&self, id: Id) -> Option<i64>;
}

impl Numbers for EGraph<Math> {
    fn match_number(&self, id: Id) -> Option<i64> {
        self.nodes(id).iter().find_map(|node| match node {
            Math::Num(n) => Some(*n),
            _ => None,
        })
    }
}

#[test]
fn appliers_compute_the_result() {
    let mut graph: EGraph<Math> = EGraph::new();
    let two = graph.add(Math::Num(2));
    let three = graph.add(Math::Num(3));
    let x = graph.add(Math::Var("x"));
    let sum = graph.add(Math::Add([two, three]));
    let open = graph.add(Math::Add([two, x]));
    graph.run(&[Rewrite::dynamic("fold", plus(v("x"), v("y")), Box::new(Folder))], RunConfig::default());
    assert_eq!(graph.match_number(sum), Some(5));
    assert_eq!(graph.match_number(open), None);
}

struct Unwrap;

impl NodeApplier<Math, ()> for Unwrap {
    fn apply(&self, egraph: &mut EGraph<Math>, subst: &Subst, node: &Math) -> Option<Id> {
        assert!(binding(subst, MATCHED_LHS).is_some());
        match node {
            Math::Neg([inner]) => match egraph.nodes(*inner).first() {
                Some(Math::Neg([innermost])) => Some(*innermost),
                _ => None,
            },
            _ => None,
        }
    }
}

#[test]
fn node_appliers_get_the_matched_node() {
    let mut graph: EGraph<Math> = EGraph::new();
    let x = graph.add(Math::Var("x"));
    let once = graph.add(Math::Neg([x]));
    let twice = graph.add(Math::Neg([once]));
    graph.run(&[Rewrite::dynamic_with_node("double", neg(v("x")), Box::new(Unwrap))], RunConfig::default());
    assert_eq!(graph.find(x), graph.find(twice));
    assert_ne!(graph.find(x), graph.find(once));
}

fn negated(graph: &EGraph<Math>, id: Id) -> Vec<Subst> {
    let mut found = Vec::new();
    for node in graph.nodes(id) {
        if let Math::Neg([inner]) = node {
            let mut subst = Subst::new();
            assert_eq!(subst.insert("x".to_string(), *inner), None);
            found.push(subst);
        }
    }
    found
}

#[test]
fn matchers_compute_the_matches() {
    let mut graph: EGraph<Math> = EGraph::new();
    let x = graph.add(Math::Var("x"));
    let n = graph.add(Math::Neg([x]));
    let minus = graph.add(Math::Num(-1));
    let product = graph.add(Math::Mul([minus, x]));
    let rule = Rewrite::dynamic_match("neg-mul", negated, times(num(-1), v("x")));
    graph.run(&[rule], RunConfig::default());
    assert_eq!(graph.find(n), graph.find(product));
}

struct Pick;

impl Applier<Math, ()> for Pick {
    fn apply(&self, _egraph: &mut EGraph<Math>, subst: &Subst) -> Option<Id> {
        binding(subst, "x")
    }
}

#[test]
fn both_sides_can_be_computed() {
    let mut graph: EGraph<Math> = EGraph::new();
    let x = graph.add(Math::Var("x"));
    let n = graph.add(Math::Neg([x]));
    graph.run(&[Rewrite::dynamic_match_apply("drop", negated, Box::new(Pick))], RunConfig::default());
    assert_eq!(graph.find(x), graph.find(n));
}

struct Zero;

impl NodeApplier<Math, ()> for Zero {
    fn apply(&self, egraph: &mut EGraph<Math>, _subst: &Subst, node: &Math) -> Option<Id> {
        match node {
            Math::Neg(_) => Some(egraph.add(Math::Num(0))),
            _ => None,
        }
    }
}

#[test]
fn computed_sides_get_a_node_of_the_class() {
    let mut graph: EGraph<Math> = EGraph::new();
    let x = graph.add(Math::Var("x"));
    let n = graph.add(Math::Neg([x]));
    let rule = Rewrite::dynamic_match_apply_with_node("zero", negated, Box::new(Zero));
    graph.run(&[rule], RunConfig::default());
    let zero = graph.add(Math::Num(0));
    assert_eq!(graph.find(n), graph.find(zero));
}

#[test]
fn repeated_variables_match_equal_classes_only() {
    let mut graph: EGraph<Math> = EGraph::new();
    let x = graph.add(Math::Var("x"));
    let y = graph.add(Math::Var("y"));
    let same = graph.add(Math::Add([x, x]));
    let mixed = graph.add(Math::Add([x, y]));
    let rule = Rewrite::new("double", plus(v("a"), v("a")), times(num(2), v("a")));
    graph.run(&[rule], RunConfig::default());
    let two = graph.add(Math::Num(2));
    let product = graph.add(Math::Mul([two, x]));
    assert_eq!(graph.find(same), graph.find(product));
    assert_ne!(graph.find(mixed), graph.find(product));
}

#[test]
fn the_simple_scheduler_enables_everything() {
    let mut scheduler = SimpleScheduler;
    assert!(RewriteScheduler::<Math, ()>::is_enabled(&mut scheduler, 0, 0, "r"));
    RewriteScheduler::<Math, ()>::on_matches(&mut scheduler, 0, 0, "r", 1_000_000);
    assert!(RewriteScheduler::<Math, ()>::is_enabled(&mut scheduler, 1, 0, "r"));
    let (mut graph, x, sum) = sample();
    graph.run_with_scheduler(&rules(), RunConfig::default(), &mut scheduler);
    assert_eq!(graph.find(x), graph.find(sum));
}

#[test]
fn explosive_rules_are_banned_ever_longer() {
    let mut scheduler = BackoffScheduler::default().with_match_limit(10).with_ban_length(3);
    assert!(scheduler.allows(0, 0));
    scheduler.observe(0, 0, 10);
    assert!(scheduler.allows(1, 0));
    scheduler.observe(1, 0, 11);
    // Banned for 3 << 1 iterations.
    assert!(!scheduler.allows(2, 0));
    assert!(!scheduler.allows(7, 0));
    assert!(scheduler.allows(8, 0));
    // The threshold doubled.
    scheduler.observe(8, 0, 20);
    assert!(scheduler.allows(9, 0));
    scheduler.observe(9, 0, 21);
    // Banned for 3 << 2 iterations.
    assert!(!scheduler.allows(21, 0));
    assert!(scheduler.allows(22, 0));
    // Other rules are not affected.
    assert!(scheduler.allows(2, 1));
}

#[test]
fn a_banned_rule_delays_saturation() {
    let (mut graph, _, _) = sample();
    let mut scheduler = BackoffScheduler::default().with_match_limit(0).with_ban_length(1);
    let reason = graph.run_with_scheduler(&rules(), RunConfig::with_iters(2), &mut scheduler);
    assert_eq!(reason, StopReason::IterationLimit { limit: 2 });
}

#[test]
fn the_default_configuration_has_no_node_limit() {
    let config = RunConfig::default();
    assert_eq!(config.max_iters, 30);
    assert_eq!(config.node_limit, None);
    let other = RunConfig::with_iters(7);
    assert_eq!(other.max_iters, 7);
    assert_eq!(other.node_limit, None);
}

fn by_cost<F: CostFunction<Math>>(graph: &EGraph<Math>, id: Id, cost: &mut F) -> String {
    graph.extract_best(id, cost).to_string()
}

#[test]
fn cost_models_choose_differently() {
    let mut graph: EGraph<Math> = EGraph::new();
    let x = graph.add(Math::Var("x"));
    let two = graph.add(Math::Num(2));
    let product = graph.add(Math::Mul([two, x]));
    let n = graph.add(Math::Neg([x]));
    let nn = graph.add(Math::Neg([n]));
    let sum = graph.add(Math::Add([x, nn]));
    graph.merge(product, sum);
    graph.rebuild();
    // Three nodes against five.
    assert_eq!(by_cost(&graph, sum, &mut AstSize), "(2 * x)");
    assert_eq!(by_cost(&graph, sum, &mut AstDepth), "(2 * x)");
    // 5 + 1 + 1 against 1 + 1 + 3.
    assert_eq!(by_cost(&graph, sum, &mut LanguageCost), "(x + (-(-x)))");
}

#[test]
fn extraction_avoids_cycles() {
    let mut graph: EGraph<Math> = EGraph::new();
    let x = graph.add(Math::Var("x"));
    let zero = graph.add(Math::Num(0));
    let sum = graph.add(Math::Add([x, zero]));
    graph.merge(x, sum);
    graph.rebuild();
    let best: Expr<Math> = graph.extract_best(sum, &mut AstSize);
    assert_eq!(best.node, Math::Var("x"));
    assert!(best.children.is_empty());
}

#[test]
fn ties_are_broken_in_one_way() {
    let build = || {
        let mut graph: EGraph<Math> = EGraph::new();
        let a = graph.add(Math::Var("a"));
        let b = graph.add(Math::Var("b"));
        graph.merge(a, b);
        graph.rebuild();
        graph.extract_best(a, &mut AstSize).to_string()
    };
    assert_eq!(build(), build());
    assert!(improves(&1usize, 9, &2usize, 0));
    assert!(improves(&1usize, 0, &1usize, 1));
    assert!(!improves(&1usize, 1, &1usize, 1));
    assert!(!improves(&2usize, 0, &1usize, 1));
}

/// For every id the numbers that `rank` gives to the nodes of its class.
fn table<F: Fn(&Math) -> u64>(graph: &EGraph<Math>, rank: F) -> Vec<Vec<u64>> {
    let mut rows: Vec<Vec<u64>> = vec![Vec::new(); graph.id_count()];
    for (id, _) in graph.classes_snapshot() {
        rows[id.0 as usize] = graph.nodes(id).iter().map(&rank).collect();
    }
    rows
}

#[test]
fn of_equally_cheap_terms_the_smallest_number_wins() {
    let mut graph: EGraph<Math> = EGraph::new();
    let a = graph.add(Math::Var("a"));
    let b = graph.add(Math::Var("b"));
    let n = graph.add(Math::Neg([a]));
    let sum = graph.add(Math::Add([a, b]));
    let product = graph.add(Math::Mul([a, b]));
    graph.merge(a, b);
    graph.merge(sum, product);
    graph.rebuild();
    let up = table(&graph, |node: &Math| match node {
        Math::Var("a") => 1,
        Math::Var(_) => 2,
        Math::Add(_) => 3,
        _ => 4,
    });
    let down = table(&graph, |node: &Math| match node {
        Math::Var("a") => 4,
        Math::Var(_) => 3,
        Math::Add(_) => 2,
        _ => 1,
    });
    assert_eq!(graph.extract_by(sum, &mut AstSize, &up).to_string(), "(a + a)");
    assert_eq!(graph.extract_by(sum, &mut AstSize, &down).to_string(), "(b * b)");
    assert_eq!(graph.extract_by(n, &mut AstSize, &up).to_string(), "(-a)");
    assert_eq!(graph.extract_by(n, &mut AstSize, &down).to_string(), "(-b)");
    // A cheaper term wins whatever its number: 1 + 1 + 1 against 5 + 1 + 1.
    assert_eq!(graph.extract_by(sum, &mut LanguageCost, &down).to_string(), "(b + b)");
    // The hashes of the nodes are one such table.
    let best = graph.extract_best(n, &mut AstSize).to_string();
    assert!(best == "(-a)" || best == "(-b)");
}

#[derive(Default)]
struct ConstFold;

impl ClassData for ConstFold {
    type Data = Option<i64>;
}

impl Analysis<Math> for ConstFold {
    fn make(egraph: &EGraph<Math, Self>, node: &Math) -> Option<i64> {
        let value = |id: &Id| *egraph.data(*id);
        match node {
            Math::Num(n) => Some(*n),
            Math::Var(_) => None,
            Math::Neg([a]) => Some(-value(a)?),
            Math::Add([a, b]) => Some(value(a)? + value(b)?),
            Math::Mul([a, b]) => Some(value(a)? * value(b)?),
        }
    }

    fn merge(&mut self, a: &mut Option<i64>, b: Option<i64>) -> bool {
        if a.is_none() && b.is_some() {
            *a = b;
            true
        } else {
            false
        }
    }

    fn modify(egraph: &mut EGraph<Math, Self>, id: Id) {
        if let Some(n) = *egraph.data(id) {
            let constant = egraph.add(Math::Num(n));
            egraph.merge(id, constant);
        }
    }
}

#[test]
fn analysis_data_is_made_and_propagated() {
    let mut graph: EGraph<Math, ConstFold> = EGraph::new();
    let two = graph.add(Math::Num(2));
    let x = graph.add(Math::Var("x"));
    let sum = graph.add(Math::Add([two, x]));
    let n = graph.add(Math::Neg([sum]));
    assert_eq!(*graph.data(two), Some(2));
    assert_eq!(*graph.data(sum), None);
    graph.rebuild();
    assert_eq!(*graph.data(n), None);
    // x is found to be 3.
    let three = graph.add(Math::Num(3));
    graph.merge(x, three);
    graph.rebuild();
    assert_eq!(*graph.data(sum), Some(5));
    assert_eq!(*graph.data(n), Some(-5));
    // Constants are materialized.
    let minus = graph.add(Math::Num(-5));
    assert_eq!(graph.find(n), graph.find(minus));
    assert_eq!(graph.check_invariants(), Ok(()));
}

#[derive(Clone)]
struct Events(Rc<RefCell<Vec<String>>>);

impl Hook<Math> for Events {
    fn on_add(&mut self, id: Id, node: &Math) {
        self.0.borrow_mut().push(format!("add {} {:?}", id.0, node));
    }

    fn on_merge(&mut self, survivor: Id, absorbed: Id) {
        self.0.borrow_mut().push(format!("merge {} {}", survivor.0, absorbed.0));
    }
}

#[test]
fn a_rebuild_does_what_congruence_and_the_analysis_say() {
    let mut graph: EGraph<Math, ConstFold> = EGraph::new();
    let one = graph.add(Math::Num(1));
    let x = graph.add(Math::Var("x"));
    let y = graph.add(Math::Var("y"));
    let two = graph.add(Math::Add([one, one]));
    let nx = graph.add(Math::Neg([x]));
    let ny = graph.add(Math::Neg([y]));
    let nn = graph.add(Math::Neg([nx]));
    graph.merge(x, y);
    let events = Events(Rc::new(RefCell::new(Vec::new())));
    graph.add_hook(Box::new(events.clone()));
    graph.rebuild();
    // The negations are congruent, and the sum is the constant 2.
    assert_eq!(
        *events.0.borrow(),
        vec!["merge 4 5".to_string(), "add 7 Num(2)".to_string(), "merge 3 7".to_string()]
    );
    assert_eq!(graph.canonical_id(nx), graph.canonical_id(ny));
    let ids = [one, x, two, nx, nn];
    for (i, a) in ids.iter().enumerate() {
        for b in &ids[i + 1..] {
            assert_ne!(graph.canonical_id(*a), graph.canonical_id(*b));
        }
    }
    // The congruence rests on x and y, the constant on the analysis.
    let chain = graph.explain(nx, ny).unwrap();
    assert!(matches!(&chain[1].1, Justification::Congruence(pairs) if *pairs == vec![(y, x)]));
    assert_eq!(graph.explain(two, Id(7)).unwrap().len(), 2);
    assert_eq!(graph.check_invariants(), Ok(()));
}

#[test]
fn a_run_is_sound_with_a_modifying_analysis() {
    let mut graph: EGraph<Math, ConstFold> = EGraph::new();
    let two = graph.add(Math::Num(2));
    let three = graph.add(Math::Num(3));
    let sum = graph.add(Math::Add([two, three]));
    let six = graph.add(Math::Mul([two, three]));
    let other = graph.add(Math::Add([three, two]));
    let rule = Rewrite::new("comm-add", plus(v("x"), v("y")), plus(v("y"), v("x")));
    graph.run(&[rule], RunConfig::default());
    let five = graph.add(Math::Num(5));
    assert_eq!(graph.find(sum), graph.find(five));
    assert_eq!(graph.find(sum), graph.find(other));
    assert_ne!(graph.find(sum), graph.find(six));
    assert_eq!(*graph.data(six), Some(6));
}

#[test]
fn substitutions_hold_the_last_binding() {
    let mut subst = Subst::default();
    assert_eq!(subst.get("x"), None);
    assert_eq!(subst.insert("x".to_string(), Id(1)), None);
    assert_eq!(subst.insert("x".to_string(), Id(2)), Some(Id(1)));
    assert_eq!(subst.get("x"), Some(&Id(2)));
    let copy = subst.clone();
    assert_eq!(binding(&copy, "x"), Some(Id(2)));
    assert_eq!(binding(&copy, "y"), None);
}

#[test]
fn patterns_are_cloned_in_depth() {
    let pattern = plus(v("x"), neg(num(1)));
    let copy = pattern.clone();
    match copy {
        Pattern::Op { node, children } => {
            assert!(node.matches(&Math::Add([Id(7), Id(8)])));
            assert_eq!(children.len(), 2);
            assert!(matches!(&children[0], Pattern::Var(name) if name == "x"));
        }
        Pattern::Var(_) => panic!("not an operator"),
    }
}
