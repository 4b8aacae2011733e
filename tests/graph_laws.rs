use computational_graph::comp_graph::{CompGraph, ConstraintViolation, EvalError, GraphError, NodeType, Operation};
use std::collections::HashMap;

fn polynomial() -> (CompGraph, usize, usize) {
    let mut graph = CompGraph::new();
    let x = graph.init();
    let x_squared = graph.mul(x, x).unwrap();
    let five = graph.constant(5);
    let sum1 = graph.add(x_squared, five).unwrap();
    let y = graph.add(sum1, x).unwrap();
    (graph, x, y)
}

#[test]
fn levels_grow_along_dependencies() {
    let mut graph = CompGraph::new();
    let a = graph.init();
    let b = graph.constant(3);
    let c = graph.add(a, b).unwrap();
    let d = graph.mul(c, a).unwrap();
    let e = graph.hint(d, |v| Ok(v)).unwrap();
    let f = graph.add(e, b).unwrap();
    assert_eq!(graph.nodes[a].level, 0);
    assert_eq!(graph.nodes[b].level, 0);
    assert_eq!(graph.nodes[c].level, 1);
    assert_eq!(graph.nodes[d].level, 2);
    assert_eq!(graph.nodes[e].level, 3);
    assert_eq!(graph.nodes[f].level, 4);
    for (i, n) in graph.nodes.iter().enumerate() {
        assert_eq!(n.index, i);
        match n.node_type {
            NodeType::Derived { left, right, .. } => {
                assert!(graph.nodes[left].level < n.level);
                assert!(graph.nodes[right].level < n.level);
            }
            NodeType::Hint { dependent } => assert!(graph.nodes[dependent].level < n.level),
            _ => assert_eq!(n.level, 0),
        }
    }
}

#[test]
fn indices_are_assigned_in_order() {
    let mut graph = CompGraph::new();
    assert_eq!(graph.init(), 0);
    assert_eq!(graph.constant(9), 1);
    assert_eq!(graph.add(0, 1), Ok(2));
    assert_eq!(graph.mul(2, 2), Ok(3));
    assert_eq!(graph.hint(3, |v| Ok(v + 1)), Ok(4));
    assert_eq!(graph.nodes[2].node_type, NodeType::Derived { left: 0, right: 1, operation: Operation::Add });
}

#[test]
fn evaluation_is_deterministic() {
    let (mut g1, x1, _) = polynomial();
    let (mut g2, x2, _) = polynomial();
    let mut in1 = HashMap::new();
    in1.insert(x1, 6);
    let mut in2 = HashMap::new();
    in2.insert(x2, 6);
    g1.fill_nodes(in1).unwrap();
    g2.fill_nodes(in2).unwrap();
    let v1: Vec<Option<u32>> = g1.nodes.iter().map(|n| n.get_value()).collect();
    let v2: Vec<Option<u32>> = g2.nodes.iter().map(|n| n.get_value()).collect();
    assert_eq!(v1, v2);
    assert_eq!(v1, vec![Some(6), Some(36), Some(5), Some(41), Some(47)]);
}

#[test]
fn constant_keeps_its_value() {
    let mut graph = CompGraph::new();
    let x = graph.init();
    let k = graph.constant(42);
    assert_eq!(graph.nodes[k].get_value(), Some(42));
    let _ = graph.add(x, k).unwrap();
    let mut inputs = HashMap::new();
    inputs.insert(x, 1000);
    inputs.insert(77, 5);
    graph.fill_nodes(inputs).unwrap();
    assert_eq!(graph.nodes[k].get_value(), Some(42));
    assert_eq!(graph.nodes[2].get_value(), Some(1042));
}

#[test]
fn inputs_seed_any_named_node() {
    let mut graph = CompGraph::new();
    let k = graph.constant(42);
    let d = graph.add(k, k).unwrap();
    let mut inputs = HashMap::new();
    inputs.insert(k, 1);
    graph.fill_nodes(inputs).unwrap();
    assert_eq!(graph.nodes[k].get_value(), Some(1));
    assert_eq!(graph.nodes[d].get_value(), Some(2));
}

#[test]
fn constraint_order_does_not_matter() {
    for swap in [false, true] {
        let mut graph = CompGraph::new();
        let a = graph.constant(3);
        let b = graph.constant(4);
        let c = graph.constant(3);
        if swap {
            graph.assert_equal(b, a).unwrap();
            graph.assert_equal(c, a).unwrap();
        } else {
            graph.assert_equal(a, b).unwrap();
            graph.assert_equal(a, c).unwrap();
        }
        graph.fill_nodes(HashMap::new()).unwrap();
        assert!(!graph.check_constraints());
    }
    for swap in [false, true] {
        let mut graph = CompGraph::new();
        let a = graph.constant(3);
        let c = graph.constant(3);
        if swap {
            graph.assert_equal(c, a).unwrap();
        } else {
            graph.assert_equal(a, c).unwrap();
        }
        graph.fill_nodes(HashMap::new()).unwrap();
        assert!(graph.check_constraints());
    }
}

#[test]
fn polynomial_without_constraints() {
    let (mut graph, x, y) = polynomial();
    let mut inputs = HashMap::new();
    inputs.insert(x, 2);
    graph.fill_nodes(inputs).unwrap();
    assert_eq!(graph.nodes[y].get_value(), Some(11));
    assert!(graph.check_constraints());
    assert!(graph.constraint_violations().is_empty());
}

#[test]
fn violation_names_both_nodes() {
    let mut graph = CompGraph::new();
    let three = graph.constant(3);
    let four = graph.constant(4);
    graph.assert_equal(three, four).unwrap();
    graph.fill_nodes(HashMap::new()).unwrap();
    assert!(!graph.check_constraints());
    assert_eq!(
        graph.constraint_violations(),
        vec![ConstraintViolation { left: three, left_value: 3, right: four, right_value: 4 }]
    );
}

#[test]
fn violations_listed_in_order() {
    let mut graph = CompGraph::new();
    let a = graph.constant(1);
    let b = graph.constant(2);
    let c = graph.constant(1);
    graph.assert_equal(b, a).unwrap();
    graph.assert_equal(a, c).unwrap();
    graph.assert_equal(c, b).unwrap();
    graph.fill_nodes(HashMap::new()).unwrap();
    assert_eq!(
        graph.constraint_violations(),
        vec![
            ConstraintViolation { left: b, left_value: 2, right: a, right_value: 1 },
            ConstraintViolation { left: c, left_value: 1, right: b, right_value: 2 },
        ]
    );
}

#[test]
fn assert_equal_on_missing_node() {
    let mut graph = CompGraph::new();
    let a = graph.constant(1);
    assert_eq!(graph.assert_equal(a, 5), Err(GraphError::NodeDoesNotExist));
    assert_eq!(graph.assert_equal(5, a), Err(GraphError::NodeDoesNotExist));
    assert_eq!(graph.assert_equal(a, a), Ok(()));
    graph.fill_nodes(HashMap::new()).unwrap();
    assert!(graph.check_constraints());
}

#[test]
fn mul_on_missing_node() {
    let mut graph = CompGraph::new();
    let a = graph.init();
    assert_eq!(graph.mul(a, 1), Err(GraphError::NodeDoesNotExist));
    assert_eq!(graph.add(1, a), Err(GraphError::NodeDoesNotExist));
    assert_eq!(graph.nodes.len(), 1);
}

#[test]
fn hint_failure_stops_evaluation() {
    let mut graph = CompGraph::new();
    let a = graph.init();
    let h = graph
        .hint(a, |v| if v == 0 { Err("Division by zero".to_string()) } else { Ok(100 / v) })
        .unwrap();
    let mut inputs = HashMap::new();
    inputs.insert(a, 0);
    match graph.fill_nodes(inputs) {
        Err(EvalError::HintFailed(i, msg)) => {
            assert_eq!(i, h);
            assert_eq!(msg, "Division by zero");
        }
        other => panic!("unexpected outcome {:?}", other),
    }
}

#[test]
fn missing_input_reported_before_hint_failure() {
    let mut graph = CompGraph::new();
    let a = graph.init();
    let b = graph.init();
    let _ = graph.hint(a, |_| Err("always".to_string())).unwrap();
    let _ = graph.add(a, b).unwrap();
    let mut inputs = HashMap::new();
    inputs.insert(a, 1);
    let r = graph.fill_nodes(inputs);
    assert!(matches!(r, Err(EvalError::InputNotProvided(i)) if i == b));
}

#[test]
fn arithmetic_wraps() {
    let mut graph = CompGraph::new();
    let a = graph.constant(u32::MAX);
    let b = graph.constant(2);
    let s = graph.add(a, b).unwrap();
    let p = graph.mul(a, b).unwrap();
    graph.fill_nodes(HashMap::new()).unwrap();
    assert_eq!(graph.nodes[s].get_value(), Some(1));
    assert_eq!(graph.nodes[p].get_value(), Some(u32::MAX - 1));
}

#[test]
fn values_absent_before_evaluation() {
    let (graph, x, y) = polynomial();
    assert_eq!(graph.nodes[x].get_value(), None);
    assert_eq!(graph.nodes[y].get_value(), None);
    assert_eq!(graph.nodes[2].get_value(), Some(5));
}

#[test]
fn empty_graph_evaluates() {
    let mut graph = CompGraph::new();
    graph.fill_nodes(HashMap::new()).unwrap();
    assert!(graph.check_constraints());
    assert!(graph.constraint_violations().is_empty());
}

#[test]
fn each_hint_node_keeps_its_own_function() {
    let mut graph = CompGraph::new();
    let a = graph.init();
    let half = graph.hint(a, |v| Ok(v / 2)).unwrap();
    let k = graph.constant(3);
    let triple = graph.hint(a, |v| Ok(v * 3)).unwrap();
    let sum = graph.add(half, triple).unwrap();
    graph.assert_equal(sum, k).unwrap();
    let mut inputs = HashMap::new();
    inputs.insert(a, 10);
    graph.fill_nodes(inputs).unwrap();
    assert_eq!(graph.nodes[half].get_value(), Some(5));
    assert_eq!(graph.nodes[triple].get_value(), Some(30));
    assert_eq!(graph.nodes[sum].get_value(), Some(35));
    assert!(!graph.check_constraints());
}

#[test]
fn levels_hold_each_node_once() {
    let mut graph = CompGraph::new();
    let a = graph.init();
    let b = graph.add(a, a).unwrap();
    let c = graph.mul(b, b).unwrap();
    assert_eq!(graph.nodes[b].level, 1);
    assert_eq!(graph.nodes[c].level, 2);
    graph.fill_nodes({
        let mut m = HashMap::new();
        m.insert(a, 3);
        m
    })
    .unwrap();
    assert_eq!(graph.nodes[c].get_value(), Some(36));
}
