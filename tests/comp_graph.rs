use computational_graph::comp_graph::{CompGraph, EvalError, GraphError};
use std::collections::HashMap;

#[test]
fn test_example_1() {
    // f(x) = x^2 + x + 5
    let mut graph = CompGraph::new();
    let x = graph.init();
    let x_squared = graph.mul(x, x).unwrap();
    let five = graph.constant(5);
    let x_squared_plus_5 = graph.add(x_squared, five).unwrap();
    let y = graph.add(x_squared_plus_5, x).unwrap();

    let mut input_nodes = HashMap::new();
    input_nodes.insert(x, 2);
    graph.fill_nodes(input_nodes).unwrap();

    assert!(graph.check_constraints());
    assert_eq!(graph.nodes[y].get_value(), Some(2 * 2 + 2 + 5));
}

#[test]
fn test_example_2() {
    // f(a) = (a + 1) / 8
    let mut graph = CompGraph::new();
    let a = graph.init();
    let constant = graph.constant(1);
    let b = graph.add(a, constant).unwrap();
    let c = graph
        .hint(b, |val| {
            if val == 0 {
                Err("Division by zero".to_string())
            } else {
                Ok(val / 8)
            }
        })
        .unwrap();
    let eight = graph.constant(8);
    let c_times_8 = graph.mul(c, eight).unwrap();
    graph.assert_equal(b, c_times_8).unwrap();

    let mut input_nodes = HashMap::new();
    input_nodes.insert(a, 7);
    graph.fill_nodes(input_nodes).unwrap();

    assert!(graph.check_constraints());
    assert_eq!(graph.nodes[c].get_value(), Some((7 + 1) / 8));
    assert_eq!(graph.nodes[b].get_value(), Some(8));
}

#[test]
fn test_example_3() {
    // f(x) = sqrt(x + 7)
    let mut graph = CompGraph::new();
    let x = graph.init();
    let seven = graph.constant(7);
    let x_plus_seven = graph.add(x, seven).unwrap();
    let sqrt_x_plus_7 = graph
        .hint(x_plus_seven, |val| Ok((val as f64).sqrt() as u32))
        .unwrap();
    let computed_sq = graph.mul(sqrt_x_plus_7, sqrt_x_plus_7).unwrap();
    graph.assert_equal(x_plus_seven, computed_sq).unwrap();

    let mut input_nodes = HashMap::new();
    input_nodes.insert(x, 2);
    graph.fill_nodes(input_nodes).unwrap();

    assert!(graph.check_constraints());
    assert_eq!(
        graph.nodes[sqrt_x_plus_7].get_value(),
        Some(((2 + 7) as f32).sqrt() as u32)
    );
}

#[test]
fn test_non_existent_node_add() {
    let mut graph = CompGraph::new();
    let non_existent_node = 999;
    assert_eq!(
        graph.add(non_existent_node, non_existent_node),
        Err(GraphError::NodeDoesNotExist)
    );
    assert_eq!(graph.nodes.len(), 0);
}

#[test]
fn test_uninitialized_input_node() {
    let mut graph = CompGraph::new();
    let x = graph.init();
    let _ = graph.mul(x, x).unwrap();
    let r = graph.fill_nodes(HashMap::new());
    assert!(matches!(r, Err(EvalError::InputNotProvided(i)) if i == x));
}

#[test]
fn test_non_existent_hint_node() {
    let mut graph = CompGraph::new();
    let non_existent_node = 999;
    let r = graph.hint(non_existent_node, |val| Ok(val));
    assert_eq!(r, Err(GraphError::DependentNodeDoesNotExist));
    assert_eq!(graph.nodes.len(), 0);
}
