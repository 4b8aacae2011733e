//! Properties that hold of every graph and every evaluation pass.
use vstd::prelude::*;

use crate::comp_graph::{constraints_hold, depends_on, node_shape_ok, same_shape, CompGraph, Node, NodeType};

verus! {

/// Every direct dependency of a node is an earlier node at a strictly lower
/// level.
pub proof fn lemma_dependencies_lower_level(g: &CompGraph)
    requires
        g.wf(),
    ensures
        forall|i: int, j: int|
            0 <= i < g.node_seq().len() && #[trigger] depends_on(g.node_seq(), i, j) ==> 0 <= j < i
                && g.node_seq()[j].level < g.node_seq()[i].level,
{
    assert forall|i: int, j: int|
        0 <= i < g.node_seq().len() && #[trigger] depends_on(g.node_seq(), i, j) implies 0 <= j < i
            && g.node_seq()[j].level < g.node_seq()[i].level by {
        assert(node_shape_ok(g.node_seq(), i));
    }
}

/// Two evaluations of the same graph on the same inputs give every node the
/// same value, provided each hint function gives one value for one argument.
pub proof fn lemma_evaluation_deterministic(g1: &CompGraph, g2: &CompGraph, inputs: Map<usize, u32>)
    requires
        g1.wf(),
        g2.wf(),
        same_shape(g1.node_seq(), g2.node_seq()),
        g1.all_valued(),
        g2.all_valued(),
        g1.sound(inputs),
        g2.sound(inputs),
        forall|i: int, v: u32, x1: u32, x2: u32|
            0 <= i < g1.node_seq().len() && g1.node_seq()[i].node_type is Hint
                && #[trigger] g1.hint_returns(i, v, Ok(x1))
                && #[trigger] g2.hint_returns(i, v, Ok(x2)) ==> x1 == x2,
    ensures
        forall|i: int|
            0 <= i < g1.node_seq().len() ==> (#[trigger] g1.node_seq()[i]).value
                == g2.node_seq()[i].value,
{
    assert forall|i: int| 0 <= i < g1.node_seq().len() implies (#[trigger] g1.node_seq()[i]).value
        == g2.node_seq()[i].value by {
        lemma_same_value_at(g1, g2, inputs, i);
    }
}

proof fn lemma_same_value_at(g1: &CompGraph, g2: &CompGraph, inputs: Map<usize, u32>, i: int)
    requires
        g1.wf(),
        g2.wf(),
        same_shape(g1.node_seq(), g2.node_seq()),
        g1.all_valued(),
        g2.all_valued(),
        g1.sound(inputs),
        g2.sound(inputs),
        forall|i: int, v: u32, x1: u32, x2: u32|
            0 <= i < g1.node_seq().len() && g1.node_seq()[i].node_type is Hint
                && #[trigger] g1.hint_returns(i, v, Ok(x1))
                && #[trigger] g2.hint_returns(i, v, Ok(x2)) ==> x1 == x2,
        0 <= i < g1.node_seq().len(),
    ensures
        g1.node_seq()[i].value == g2.node_seq()[i].value,
    decreases i,
{
    let s1 = g1.node_seq();
    let s2 = g2.node_seq();
    assert(node_shape_ok(s1, i));
    assert(s2[i].node_type == s1[i].node_type);
    assert(g1.sound_at(inputs, i));
    assert(g2.sound_at(inputs, i));
    assert(s1[i].value is Some);
    assert(s2[i].value is Some);
    if !inputs.contains_key(i as usize) {
        match s1[i].node_type {
            NodeType::Derived { left, right, .. } => {
                lemma_same_value_at(g1, g2, inputs, left as int);
                lemma_same_value_at(g1, g2, inputs, right as int);
            },
            NodeType::Hint { dependent } => {
                lemma_same_value_at(g1, g2, inputs, dependent as int);
                assert(g1.hint_returns(i, s1[dependent as int].value.unwrap(), Ok(s1[i].value.unwrap())));
                assert(g2.hint_returns(i, s1[dependent as int].value.unwrap(), Ok(s2[i].value.unwrap())));
            },
            _ => {},
        }
    }
}

/// A constant node that the inputs do not name keeps the value it was built
/// with, whatever else the inputs hold.
pub proof fn lemma_constant_invariance(g: &CompGraph, inputs: Map<usize, u32>, i: int, c: u32)
    requires
        g.wf(),
        g.sound(inputs),
        0 <= i < g.node_seq().len(),
        g.node_seq()[i].node_type == NodeType::Constant(c),
        !inputs.contains_key(i as usize),
    ensures
        g.node_seq()[i].value == Some(c),
{
    assert(g.sound_at(inputs, i));
}

/// Asserting a pair in either order gives the same outcome: constraint lists
/// that agree up to the order within each pair hold together or not at all.
pub proof fn lemma_constraint_symmetry(s: Seq<Node>, cs1: Seq<(usize, usize)>, cs2: Seq<(usize, usize)>)
    requires
        cs1.len() == cs2.len(),
        forall|k: int|
            0 <= k < cs1.len() ==> #[trigger] cs2[k] == cs1[k] || cs2[k] == (cs1[k].1, cs1[k].0),
    ensures
        constraints_hold(s, cs1) == constraints_hold(s, cs2),
{
    if constraints_hold(s, cs1) {
        assert forall|k: int| 0 <= k < cs2.len() implies s[(#[trigger] cs2[k]).0 as int].value
            == s[cs2[k].1 as int].value by {
            assert(s[cs1[k].0 as int].value == s[cs1[k].1 as int].value);
        }
    }
    if constraints_hold(s, cs2) {
        assert forall|k: int| 0 <= k < cs1.len() implies s[(#[trigger] cs1[k]).0 as int].value
            == s[cs1[k].1 as int].value by {
            assert(s[cs2[k].0 as int].value == s[cs2[k].1 as int].value);
        }
    }
}

/// `assert_equal(a, b)` and `assert_equal(b, a)` after the same constraints
/// make the constraint check agree.
pub proof fn lemma_assert_equal_symmetric(s: Seq<Node>, cs: Seq<(usize, usize)>, a: usize, b: usize)
    ensures
        constraints_hold(s, cs.push((a, b))) == constraints_hold(s, cs.push((b, a))),
{
    let cs1 = cs.push((a, b));
    let cs2 = cs.push((b, a));
    assert forall|k: int| 0 <= k < cs1.len() implies #[trigger] cs2[k] == cs1[k] || cs2[k] == (
    cs1[k].1, cs1[k].0) by {
        if k < cs.len() {
            assert(cs1[k] == cs[k]);
            assert(cs2[k] == cs[k]);
        }
    }
    lemma_constraint_symmetry(s, cs1, cs2);
}

} // verus!
