use std::cell::RefCell;
use std::cmp::Ordering;
use std::rc::Rc;
use toolbox::egraph::hooks::{CountingHook, Hook};
use toolbox::egraph::invariants::Violation;
use toolbox::egraph::lang::{Id, Language};
use toolbox::egraph::mermaid::{to_mermaid, to_mermaid_equivalences};
use toolbox::egraph::{EGraph, Justification};

#[derive(Clone, PartialEq, Eq, Hash, Debug)]
enum Math {
    Num(i64),
    Var(&'static str),
    Neg([Id; 1]),
    Add([Id; 2]),
    Mul([Id; 2]),
}

impl Language for Math {
    fn matches(&self, other: &Self) -> bool {
        match (self, other) {
            (Math::Num(a), Math::Num(b)) => a == b,
            (Math::Var(a), Math::Var(b)) => a == b,
            (Math::Neg(_), Math::Neg(_)) => true,
            (Math::Add(_), Math::Add(_)) => true,
            (Math::Mul(_), Math::Mul(_)) => true,
            _ => false,
        }
    }

    fn children(&self) -> &[Id] {
        match self {
            Math::Num(_) | Math::Var(_) => &[],
            Math::Neg(ids) => ids,
            Math::Add(ids) | Math::Mul(ids) => ids,
        }
    }

    fn children_mut(&mut self) -> &mut [Id] {
        match self {
            Math::Num(_) | Math::Var(_) => &mut [],
            Math::Neg(ids) => ids,
            Math::Add(ids) | Math::Mul(ids) => ids,
        }
    }

    fn cost(&self) -> usize {
        match self {
            Math::Mul(_) => 5,
            _ => 1,
        }
    }

    fn display(&self, children: &[String]) -> String {
        match self {
            Math::Num(n) => n.to_string(),
            Math::Var(name) => name.to_string(),
            Math::Neg(_) => format!("(-{})", children[0]),
            Math::Add(_) => format!("({} + {})", children[0], children[1]),
            Math::Mul(_) => format!("({} * {})", children[0], children[1]),
        }
    }
}

fn reason(step: &(Id, Justification)) -> String {
    match &step.1 {
        Justification::Rule(name) => format!("rule {}", name),
        Justification::Congruence(pairs) => format!("congruence {:?}", pairs),
    }
}

/// `a`, `b`, `-a` and `-b`, with the ids 0 to 3.
fn negations() -> EGraph<Math> {
    let mut graph: EGraph<Math> = EGraph::new();
    let a = graph.add(Math::Var("a"));
    let b = graph.add(Math::Var("b"));
    graph.add(Math::Neg([a]));
    graph.add(Math::Neg([b]));
    graph
}

#[test]
fn ids_come_from_integers() {
    assert_eq!(Id::from(3u8), Id(3));
    assert_eq!(Id::from(3u16), Id(3));
    assert_eq!(Id::from(3u32), Id(3));
    assert_eq!(Id::from(3i8), Id(3));
    assert_eq!(Id::from(3i16), Id(3));
    assert_eq!(Id::from(-1i32), Id(u32::MAX));
    assert_eq!(Id::from(3usize), Id(3));
    assert_eq!(Id::from(-2isize), Id(u32::MAX - 1));
    assert_eq!(Id::placeholder(), Id(0));
}

#[test]
fn adding_a_node_twice_gives_one_class() {
    let mut graph: EGraph<Math> = EGraph::new();
    let x = graph.add(Math::Var("x"));
    let y = graph.add(Math::Var("y"));
    let sum = graph.add(Math::Add([x, y]));
    assert_eq!((x, y, sum), (Id(0), Id(1), Id(2)));
    assert_eq!(graph.add(Math::Add([x, y])), sum);
    assert_eq!(graph.id_count(), 3);
    assert_eq!(graph.lookup(&Math::Add([x, y])), Some(sum));
    assert_eq!(graph.lookup(&Math::Add([y, x])), None);
    assert_eq!(graph.total_nodes(), 3);
}

#[test]
fn merging_unites_classes() {
    let mut graph = negations();
    assert_eq!(graph.merge(Id(0), Id(1)), Id(0));
    assert_eq!(graph.find(Id(1)), Id(0));
    assert_eq!(graph.canonical_id(Id(1)), Id(0));
    assert_eq!(graph.union(Id(1), Id(0)), Id(0));
    assert_eq!(graph.nodes(Id(1)), &[Math::Var("a"), Math::Var("b")]);
}

#[test]
fn the_larger_class_survives() {
    let mut graph: EGraph<Math> = EGraph::new();
    let a = graph.add(Math::Var("a"));
    let b = graph.add(Math::Var("b"));
    graph.add(Math::Neg([b]));
    assert_eq!(graph.merge(a, b), b);
}

#[test]
fn rebuilding_restores_congruence() {
    let mut graph = negations();
    graph.merge(Id(0), Id(1));
    assert_ne!(graph.canonical_id(Id(2)), graph.canonical_id(Id(3)));
    assert_eq!(
        graph.check_invariants(),
        Err(Violation::StaleChild { class: Id(3), child: Id(1) })
    );
    graph.rebuild();
    assert_eq!(graph.canonical_id(Id(2)), graph.canonical_id(Id(3)));
    assert_eq!(graph.check_invariants(), Ok(()));
    assert_eq!(graph.total_nodes(), 3);
    // Nothing else became equal.
    assert_ne!(graph.canonical_id(Id(0)), graph.canonical_id(Id(2)));
    // A node is found by any ids of its children's classes.
    assert_eq!(graph.lookup(&Math::Neg([Id(1)])), Some(Id(2)));
    // Rebuilding again changes nothing.
    graph.rebuild();
    assert_eq!(graph.total_nodes(), 3);
}

#[test]
fn an_empty_graph_is_valid() {
    let mut graph: EGraph<Math> = EGraph::default();
    assert_eq!(graph.check_invariants(), Ok(()));
    graph.rebuild();
    assert_eq!(graph.total_nodes(), 0);
    assert!(graph.classes_snapshot().is_empty());
    assert_eq!(to_mermaid(&graph), "flowchart TD\n");
}

#[test]
fn classes_are_listed_in_order() {
    let mut graph = negations();
    graph.merge(Id(0), Id(1));
    graph.rebuild();
    assert_eq!(
        graph.classes_snapshot(),
        vec![
            (Id(0), vec![Math::Var("a"), Math::Var("b")]),
            (Id(2), vec![Math::Neg([Id(0)])]),
        ]
    );
}

#[test]
fn the_first_node_with_the_operator_is_found() {
    let mut graph = negations();
    graph.merge(Id(0), Id(2));
    let template = Math::Neg([Id::placeholder()]);
    assert_eq!(graph.match_node(Id(0), &template), Some(&Math::Neg([Id(0)])));
    assert_eq!(graph.match_node(Id(1), &template), None);
}

#[test]
fn classes_are_compared_by_the_caller() {
    let mut graph = negations();
    graph.merge(Id(0), Id(2));
    let by_size = graph.compare_classes(Id(0), Id(1), |a, b| a.nodes.len().cmp(&b.nodes.len()));
    assert_eq!(by_size, Ordering::Greater);
    let same = graph.compare_classes(Id(0), Id(2), |_, _| Ordering::Less);
    assert_eq!(same, Ordering::Equal);
}

#[test]
fn nodes_match_in_depth_by_the_callers_predicate() {
    let mut graph: EGraph<Math> = EGraph::new();
    let one = graph.add(Math::Num(1));
    let two = graph.add(Math::Num(2));
    let x = graph.add(Math::Var("x"));
    graph.add(Math::Add([one, x]));
    graph.add(Math::Add([two, x]));
    let (p, q) = (Math::Add([one, x]), Math::Add([two, x]));
    let exact = |a: &Math, b: &Math| a.matches(b);
    let loose = |a: &Math, b: &Math| {
        a.matches(b) || (matches!(a, Math::Num(_)) && matches!(b, Math::Num(_)))
    };
    assert!(!graph.nodes_match_deep(&p, &q, &exact));
    assert!(graph.nodes_match_deep(&p, &q, &loose));
    assert!(graph.nodes_match_deep(&p, &p, &exact));
    assert!(!graph.nodes_match_deep(&p, &Math::Num(1), &loose));
    // Some e-node of the child class is enough.
    graph.merge(one, two);
    graph.rebuild();
    assert!(graph.nodes_match_deep(&p, &q, &exact));
}

#[test]
fn matching_in_depth_ends_on_cycles() {
    let mut graph = negations();
    graph.merge(Id(0), Id(2));
    graph.rebuild();
    let node = Math::Neg([Id(0)]);
    let only_neg = |a: &Math, b: &Math| matches!((a, b), (Math::Neg(_), Math::Neg(_)));
    assert!(graph.nodes_match_deep(&node, &node, &only_neg));
    assert!(!graph.nodes_match_deep(&node, &Math::Neg([Id(1)]), &only_neg));
}

#[test]
fn frozen_terms_are_found() {
    let mut graph = negations();
    graph.merge(Id(0), Id(1));
    graph.rebuild();
    assert_eq!(graph.find_by_term("(-a)"), Some(Id(2)));
    assert_eq!(graph.find_by_term("(-b)"), Some(Id(3)));
    assert_eq!(graph.find_by_term("c"), None);
}

#[test]
fn equalities_are_explained() {
    let mut graph = negations();
    graph.merge(Id(0), Id(1));
    graph.rebuild();
    let chain = graph.explain(Id(2), Id(3)).unwrap();
    assert_eq!(chain.len(), 2);
    assert_eq!(chain[0].0, Id(2));
    assert_eq!(reason(&chain[0]), "rule ");
    assert_eq!(chain[1].0, Id(3));
    assert_eq!(reason(&chain[1]), "congruence [(Id(1), Id(0))]");
    let alone = graph.explain(Id(2), Id(2)).unwrap();
    assert_eq!(alone.len(), 1);
    assert!(graph.explain(Id(0), Id(2)).is_none());
}

#[test]
fn explanations_are_written_out() {
    let mut graph = negations();
    graph.merge(Id(0), Id(1));
    graph.rebuild();
    assert_eq!(
        graph.explain_equivalence(Id(2), Id(3)),
        Some(
            "(-a)\n = (-b) [by congruence]\n where b = a:\n   b\n    = a [by congruence]\n"
                .to_string()
        )
    );
    assert_eq!(graph.explain_equivalence(Id(0), Id(2)), None);
    assert_eq!(graph.explain_equivalence(Id(0), Id(0)), Some("a\n".to_string()));
}

#[test]
fn the_shortest_way_is_explained() {
    let mut graph: EGraph<Math> = EGraph::new();
    let ids: Vec<Id> = ["a", "b", "c", "d"].iter().map(|&n| graph.add(Math::Var(n))).collect();
    graph.merge(ids[0], ids[1]);
    graph.merge(ids[1], ids[2]);
    graph.merge(ids[2], ids[3]);
    // Already equal: no further edge.
    graph.merge(ids[0], ids[3]);
    let chain: Vec<Id> = graph.explain(ids[3], ids[0]).unwrap().iter().map(|s| s.0).collect();
    assert_eq!(chain, vec![ids[3], ids[2], ids[1], ids[0]]);
}

#[test]
fn proofs_are_checked() {
    let mut graph = negations();
    graph.merge(Id(0), Id(1));
    graph.rebuild();
    assert_eq!(graph.check_proof(Id(2), Id(3)), Ok(()));
    assert_eq!(graph.check_proof(Id(2), Id(2)), Ok(()));
    assert_eq!(
        graph.check_proof(Id(0), Id(3)),
        Err("no proof connecting Id(0) and Id(3)".to_string())
    );
}

#[test]
fn proofs_that_go_too_deep_are_refused() {
    let mut graph: EGraph<Math> = EGraph::new();
    let mut a = graph.add(Math::Var("a"));
    let mut b = graph.add(Math::Var("b"));
    let (first, second) = (a, b);
    for _ in 0..70 {
        a = graph.add(Math::Neg([a]));
        b = graph.add(Math::Neg([b]));
    }
    graph.merge(first, second);
    graph.rebuild();
    assert_eq!(graph.canonical_id(a), graph.canonical_id(b));
    assert_eq!(
        graph.check_proof(a, b),
        Err("proof exceeded maximum recursion depth".to_string())
    );
}

struct Recorder(Rc<RefCell<Vec<String>>>);

impl Hook<Math> for Recorder {
    fn on_add(&mut self, id: Id, node: &Math) {
        self.0.borrow_mut().push(format!("add {} {:?}", id.0, node));
    }

    fn on_merge(&mut self, survivor: Id, absorbed: Id) {
        self.0.borrow_mut().push(format!("merge {} {}", survivor.0, absorbed.0));
    }
}

#[test]
fn hooks_hear_of_every_event() {
    let log = Rc::new(RefCell::new(Vec::new()));
    let mut graph: EGraph<Math> = EGraph::new();
    let a = graph.add(Math::Var("a"));
    graph.add_hook(Box::new(Recorder(log.clone())));
    let b = graph.add(Math::Var("b"));
    graph.add(Math::Var("b"));
    let x = graph.add(Math::Neg([a]));
    let y = graph.add(Math::Neg([b]));
    graph.merge(a, b);
    graph.merge(b, a);
    graph.rebuild();
    assert_eq!(graph.find(x), graph.find(y));
    assert_eq!(
        *log.borrow(),
        vec![
            "add 1 Var(\"b\")",
            "add 2 Neg([Id(0)])",
            "add 3 Neg([Id(1)])",
            "merge 0 1",
            "merge 2 3",
        ]
    );
}

#[test]
fn events_are_counted() {
    let mut hook = CountingHook::default();
    Hook::<Math>::on_add(&mut hook, Id(0), &Math::Num(1));
    Hook::<Math>::on_merge(&mut hook, Id(0), Id(1));
    Hook::<Math>::on_merge(&mut hook, Id(0), Id(2));
    assert_eq!(hook.adds, 1);
    assert_eq!(hook.merges, 2);
}

#[test]
fn a_graph_is_drawn() {
    let mut graph: EGraph<Math> = EGraph::new();
    let a = graph.add(Math::Var("<\"&>"));
    let one = graph.add(Math::Num(1));
    let other = graph.add(Math::Num(2));
    let sum = graph.add(Math::Add([a, one]));
    graph.add(Math::Neg([sum]));
    graph.merge(one, other);
    graph.rebuild();
    assert_eq!(
        to_mermaid(&graph),
        "flowchart TD\n subgraph c0[\"e-class 0\"]\n n0_0[\"&lt;&quot;&amp;&gt;\"]\n end\n subgraph \
         c1[\"e-class 1\"]\n n1_0[\"1\"]\n n1_1[\"2\"]\n end\n subgraph c2[\"e-class 2\"]\n \
         n2_0[\"(c0 + c1)\"]\n end\n subgraph c3[\"e-class 3\"]\n n3_0[\"(-c2)\"]\n end\n n2_0 -->|0| \
         c0\n n2_0 -->|1| c1\n n3_0 --> c2\n"
    );
}

/// `a == --a`.
fn doubled() -> EGraph<Math> {
    let mut graph: EGraph<Math> = EGraph::new();
    let a = graph.add(Math::Var("a"));
    let x = graph.add(Math::Neg([a]));
    let y = graph.add(Math::Neg([x]));
    graph.merge(a, y);
    graph.rebuild();
    graph
}

#[test]
fn equivalent_forms_are_drawn() {
    let graph = doubled();
    assert_eq!(
        to_mermaid_equivalences(&graph, Id(2), 0, 10),
        "flowchart TD\n class0([\"e-class 0 (equivalent forms)\"])\n f0_0[\"(-c1)\"]\n class0 --- \
         f0_0\n f0_1[\"a\"]\n class0 --- f0_1\n"
    );
}

#[test]
fn forms_are_enumerated_to_a_depth() {
    let text = to_mermaid_equivalences(&doubled(), Id(0), 2, 10);
    assert_eq!(
        text,
        "flowchart TD\n class0([\"e-class 0 (equivalent forms)\"])\n f0_0[\"(-(-(-c1)))\"]\n class0 \
         --- f0_0\n f0_1[\"(-(-a))\"]\n class0 --- f0_1\n f0_2[\"a\"]\n class0 --- f0_2\n"
    );
}

#[test]
fn forms_are_bounded_in_number() {
    let text = to_mermaid_equivalences(&doubled(), Id(0), 2, 2);
    assert_eq!(
        text,
        "flowchart TD\n class0([\"e-class 0 (equivalent forms)\"])\n f0_0[\"(-(-a))\"]\n class0 --- \
         f0_0\n f0_1[\"a\"]\n class0 --- f0_1\n"
    );
    let none = to_mermaid_equivalences(&doubled(), Id(0), 2, 0);
    assert_eq!(
        none,
        "flowchart TD\n class0([\"e-class 0 (equivalent forms)\"])\n"
    );
}

#[test]
fn all_combinations_are_forms() {
    let mut graph: EGraph<Math> = EGraph::new();
    let a = graph.add(Math::Var("a"));
    let b = graph.add(Math::Var("b"));
    let sum = graph.add(Math::Add([a, b]));
    graph.merge(a, b);
    graph.rebuild();
    let text = to_mermaid_equivalences(&graph, sum, 1, 10);
    for form in ["(a + a)", "(a + b)", "(b + a)", "(b + b)"] {
        assert!(text.contains(form));
    }
    assert_eq!(text.lines().count(), 10);
}
