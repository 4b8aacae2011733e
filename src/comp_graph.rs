use std::collections::HashMap;
use vstd::prelude::*;

verus! {

broadcast use vstd::std_specs::hash::group_hash_axioms;

/// A computation that gives a hint node its value from the value of the node
/// it depends on, or a reason why it could not.
///
/// Every `Fn(u32) -> Result<u32, String>` closure is one.
pub trait HintFunction {
    /// The values on which `apply` may be called.
    spec fn accepts(&self, v: u32) -> bool;

    /// Whether `r` is a possible outcome of `apply` on `v`.
    spec fn gives(&self, v: u32, r: Result<u32, String>) -> bool;

    fn apply(&self, v: u32) -> (r: Result<u32, String>)
        requires
            self.accepts(v),
        ensures
            self.gives(v, r),
    ;
}

impl<F: Fn(u32) -> Result<u32, String>> HintFunction for F {
    open spec fn accepts(&self, v: u32) -> bool {
        call_requires(*self, (v,))
    }

    open spec fn gives(&self, v: u32, r: Result<u32, String>) -> bool {
        call_ensures(*self, (v,), r)
    }

    fn apply(&self, v: u32) -> (r: Result<u32, String>) {
        self(v)
    }
}

/// The operator of a derived node. Both wrap around modulo 2^32 on overflow.
#[derive(Clone, Copy, Debug, PartialEq, Eq, Structural)]
pub enum Operation {
    Add,
    Mul,
}

/// What a node is, and which earlier nodes it depends on.
#[derive(Clone, Copy, Debug, PartialEq, Eq, Structural)]
pub enum NodeType {
    Constant(u32),
    Input,
    Derived { left: usize, right: usize, operation: Operation },
    Hint { dependent: usize },
}

/// One vertex of the graph: its index, kind and level, and its value once known.
#[derive(Clone, Copy, Debug, PartialEq, Eq, Structural)]
pub struct Node {
    pub index: usize,
    pub value: Option<u32>,
    pub node_type: NodeType,
    pub level: usize,
}

/// Why a construction call was refused.
#[derive(Clone, Copy, Debug, PartialEq, Eq, Structural)]
pub enum GraphError {
    /// `add`, `mul` or `assert_equal` named an index that no node has.
    NodeDoesNotExist,
    /// `hint` named a dependent index that no node has.
    DependentNodeDoesNotExist,
}

/// Why an evaluation pass stopped.
#[derive(Debug)]
pub enum EvalError {
    /// The input node with this index was given no value.
    InputNotProvided(usize),
    /// The hint function of the node with this index failed, for this reason.
    HintFailed(usize, String),
}

/// Two constrained nodes whose values differ.
#[derive(Clone, Copy, Debug, PartialEq, Eq, Structural)]
pub struct ConstraintViolation {
    pub left: usize,
    pub left_value: u32,
    pub right: usize,
    pub right_value: u32,
}

/// The result of applying `op` to two values, wrapping modulo 2^32.
pub open spec fn apply_op(op: Operation, a: u32, b: u32) -> u32 {
    match op {
        Operation::Add => vstd::wrapping::u32_specs::wrapping_add(a, b),
        Operation::Mul => vstd::wrapping::u32_specs::wrapping_mul(a, b),
    }
}

/// The higher of two levels.
pub open spec fn max_level(a: usize, b: usize) -> usize {
    if a >= b {
        a
    } else {
        b
    }
}

/// Whether node `j` is a direct dependency of node `i`.
pub open spec fn depends_on(s: Seq<Node>, i: int, j: int) -> bool {
    match s[i].node_type {
        NodeType::Derived { left, right, .. } => j == left as int || j == right as int,
        NodeType::Hint { dependent } => j == dependent as int,
        _ => false,
    }
}

/// Whether node `j` is node `i` or one of its dependencies, direct or not.
pub open spec fn reaches(s: Seq<Node>, i: int, j: int) -> bool
    decreases i,
{
    if i < 0 || i >= s.len() {
        false
    } else if i == j {
        true
    } else {
        match s[i].node_type {
            NodeType::Derived { left, right, .. } => (left < i && reaches(s, left as int, j)) || (
            right < i && reaches(s, right as int, j)),
            NodeType::Hint { dependent } => dependent < i && reaches(s, dependent as int, j),
            _ => false,
        }
    }
}

/// Whether a node reaches depends on node kinds only.
proof fn lemma_reaches_same_shape(a: Seq<Node>, b: Seq<Node>, i: int, j: int)
    requires
        same_shape(a, b),
    ensures
        reaches(a, i, j) == reaches(b, i, j),
    decreases i,
{
    if 0 <= i < a.len() && i != j {
        assert(a[i].node_type == b[i].node_type);
        match a[i].node_type {
            NodeType::Derived { left, right, .. } => {
                if left < i {
                    lemma_reaches_same_shape(a, b, left as int, j);
                }
                if right < i {
                    lemma_reaches_same_shape(a, b, right as int, j);
                }
            },
            NodeType::Hint { dependent } => {
                if dependent < i {
                    lemma_reaches_same_shape(a, b, dependent as int, j);
                }
            },
            _ => {},
        }
    }
}

/// Whatever a direct dependency reaches, the node reaches too.
proof fn lemma_reaches_step(s: Seq<Node>, i: int, k: int, j: int)
    requires
        0 <= i < s.len(),
        node_shape_ok(s, i),
        depends_on(s, i, k),
        reaches(s, k, j),
    ensures
        reaches(s, i, j),
{
}

/// Node `i` carries its own index, refers only to earlier nodes, and sits one
/// level above the highest of its dependencies (inputs and constants at level 0).
pub open spec fn node_shape_ok(s: Seq<Node>, i: int) -> bool {
    let n = s[i];
    &&& n.index == i
    &&& match n.node_type {
        NodeType::Constant(_) => n.level == 0,
        NodeType::Input => n.level == 0,
        NodeType::Derived { left, right, .. } => {
            &&& left < i
            &&& right < i
            &&& n.level == max_level(s[left as int].level, s[right as int].level) + 1
        },
        NodeType::Hint { dependent } => dependent < i && n.level == s[dependent as int].level
            + 1,
    }
}

/// The value a node holds before any evaluation pass.
pub open spec fn initial_value(t: NodeType) -> Option<u32> {
    match t {
        NodeType::Constant(c) => Some(c),
        _ => None,
    }
}

/// Same nodes in the same places, values aside.
pub open spec fn same_shape(a: Seq<Node>, b: Seq<Node>) -> bool {
    &&& a.len() == b.len()
    &&& forall|i: int|
        0 <= i < a.len() ==> {
            &&& (#[trigger] b[i]).index == a[i].index
            &&& b[i].node_type == a[i].node_type
            &&& b[i].level == a[i].level
        }
}

/// The violated constraints among `cs`, in order, under the node values of `s`.
pub open spec fn violations_of(s: Seq<Node>, cs: Seq<(usize, usize)>) -> Seq<ConstraintViolation>
    decreases cs.len(),
{
    if cs.len() == 0 {
        Seq::empty()
    } else {
        let prev = violations_of(s, cs.drop_last());
        let (a, b) = cs.last();
        let va = s[a as int].value.unwrap();
        let vb = s[b as int].value.unwrap();
        if va != vb {
            prev.push(ConstraintViolation { left: a, left_value: va, right: b, right_value: vb })
        } else {
            prev
        }
    }
}

/// Whether every pair of `cs` has equal values under `s`.
pub open spec fn constraints_hold(s: Seq<Node>, cs: Seq<(usize, usize)>) -> bool {
    forall|k: int| 0 <= k < cs.len() ==> s[(#[trigger] cs[k]).0 as int].value == s[cs[k].1 as int].value
}

/// The level index `ls` after node `idx` joins level `l`, which is either an
/// existing level or the next one.
pub open spec fn with_level_entry(ls: Seq<Seq<usize>>, l: int, idx: usize) -> Seq<Seq<usize>> {
    if l < ls.len() {
        ls.update(l, ls[l].push(idx))
    } else {
        ls.push(seq![idx])
    }
}

/// A graph of nodes, stored by index, with its level index, its equality
/// constraints and the hint functions of its hint nodes.
pub struct CompGraph {
    pub nodes: Vec<Node>,
    constraints: Vec<(usize, usize)>,
    hints: Vec<Option<Box<dyn HintFunction>>>,
    filled: bool,
    levels: Vec<Vec<usize>>,
}

fn compute(op: Operation, a: u32, b: u32) -> (r: u32)
    ensures
        r == apply_op(op, a, b),
{
    match op {
        Operation::Add => a.wrapping_add(b),
        Operation::Mul => a.wrapping_mul(b),
    }
}

impl Node {
    fn new(index: usize, node_type: NodeType, level: usize) -> (r: Node)
        ensures
            r == (Node { index, value: None, node_type, level }),
    {
        Node { index, value: None, node_type, level }
    }

    /// The node's value, present once it has been given or computed.
    pub fn get_value(&self) -> (r: Option<u32>)
        ensures
            r == self.value,
    {
        self.value
    }

    fn set_value(&mut self, value: u32)
        ensures
            *final(self) == (Node { value: Some(value), ..*old(self) }),
    {
        self.value = Some(value);
    }
}

impl CompGraph {
    /// The nodes, by index.
    pub closed spec fn node_seq(&self) -> Seq<Node> {
        self.nodes@
    }

    /// The constraint pairs, in the order they were asserted.
    pub closed spec fn constraint_pairs(&self) -> Seq<(usize, usize)> {
        self.constraints@
    }

    /// The level index: entry `l` lists the nodes at level `l`.
    pub closed spec fn level_sets(&self) -> Seq<Seq<usize>> {
        self.levels@.map_values(|v: Vec<usize>| v@)
    }

    /// Whether an evaluation pass has begun.
    pub closed spec fn is_filled(&self) -> bool {
        self.filled
    }

    /// The number of entries of the hint registry, one per node.
    pub closed spec fn hint_slots(&self) -> nat {
        self.hints@.len()
    }

    /// Whether node `i` has a hint function.
    pub closed spec fn has_hint(&self, i: int) -> bool {
        0 <= i < self.hints@.len() && self.hints@[i] is Some
    }

    /// Whether the hint function of node `i` accepts every value.
    pub closed spec fn hint_total(&self, i: int) -> bool {
        forall|v: u32| #[trigger] self.hints@[i].unwrap().accepts(v)
    }

    /// Whether `r` is a possible outcome of the hint function of node `i` on `v`.
    pub closed spec fn hint_returns(&self, i: int, v: u32, r: Result<u32, String>) -> bool {
        self.hints@[i].unwrap().gives(v, r)
    }

    /// The structure every graph keeps: well-formed nodes, a level index that
    /// holds each node exactly once, at its level, constraints on existing nodes,
    /// one hint function for each hint node, and the values before evaluation.
    pub open spec fn wf(&self) -> bool {
        let s = self.node_seq();
        &&& self.hint_slots() == s.len()
        &&& forall|i: int| 0 <= i < s.len() ==> #[trigger] node_shape_ok(s, i)
        &&& forall|i: int| 0 <= i < s.len() ==> (#[trigger] self.has_hint(i) <==> s[i].node_type is Hint)
        &&& forall|i: int| 0 <= i < s.len() && s[i].node_type is Hint ==> #[trigger] self.hint_total(i)
        &&& self.level_sets().len() >= 1
        &&& forall|l: int| 0 <= l < self.level_sets().len() ==> (#[trigger] self.level_sets()[l]).no_duplicates()
        &&& forall|i: int|
            0 <= i < s.len() ==> (#[trigger] s[i]).level < self.level_sets().len()
                && self.level_sets()[s[i].level as int].contains(i as usize)
        &&& forall|l: int, k: int|
            0 <= l < self.level_sets().len() && 0 <= k < self.level_sets()[l].len() ==> {
                let j = #[trigger] self.level_sets()[l][k];
                j < s.len() && s[j as int].level == l
            }
        &&& forall|k: int|
            0 <= k < self.constraint_pairs().len() ==> (#[trigger] self.constraint_pairs()[k]).0
                < s.len() && self.constraint_pairs()[k].1 < s.len()
        &&& forall|i: int| 0 <= i < s.len() && (#[trigger] s[i]).node_type is Constant ==> s[i].value is Some
        &&& !self.is_filled() ==> forall|i: int|
            0 <= i < s.len() ==> (#[trigger] s[i]).value == initial_value(s[i].node_type)
    }

    /// Whether the value of node `i`, if it has one, is the one the inputs and
    /// the node's kind give it: the input's value if `inputs` names the node,
    /// else the constant, the operator applied to both dependencies' values, or
    /// an outcome of the hint function on the dependency's value.
    pub open spec fn sound_at(&self, inputs: Map<usize, u32>, i: int) -> bool {
        let s = self.node_seq();
        match s[i].value {
            None => true,
            Some(v) => if inputs.contains_key(i as usize) {
                v == inputs[i as usize]
            } else {
                match s[i].node_type {
                    NodeType::Constant(c) => v == c,
                    NodeType::Input => false,
                    NodeType::Derived { left, right, operation } => {
                        &&& s[left as int].value is Some
                        &&& s[right as int].value is Some
                        &&& v == apply_op(
                            operation,
                            s[left as int].value.unwrap(),
                            s[right as int].value.unwrap(),
                        )
                    },
                    NodeType::Hint { dependent } => {
                        &&& s[dependent as int].value is Some
                        &&& self.hint_returns(i, s[dependent as int].value.unwrap(), Ok(v))
                    },
                }
            },
        }
    }

    /// Every node of `self` has the same hint function in `next`: the hint
    /// registry of `self` is kept.
    pub open spec fn hints_kept(&self, next: &CompGraph) -> bool {
        forall|i: int, v: u32, x: Result<u32, String>|
            0 <= i < self.node_seq().len() ==> #[trigger] next.hint_returns(i, v, x)
                == self.hint_returns(i, v, x)
    }

    /// Every value present is sound with respect to `inputs`.
    pub open spec fn sound(&self, inputs: Map<usize, u32>) -> bool {
        forall|i: int| 0 <= i < self.node_seq().len() ==> #[trigger] self.sound_at(inputs, i)
    }

    /// Every node has a value.
    pub open spec fn all_valued(&self) -> bool {
        forall|i: int| 0 <= i < self.node_seq().len() ==> (#[trigger] self.node_seq()[i]).value is Some
    }

    /// What an evaluation step may change: node values, from absent to present.
    pub open spec fn values_grow(&self, next: &CompGraph) -> bool {
        &&& same_shape(self.node_seq(), next.node_seq())
        &&& forall|i: int|
            0 <= i < self.node_seq().len() && (#[trigger] self.node_seq()[i]).value is Some
                ==> next.node_seq()[i].value == self.node_seq()[i].value
        &&& next.constraint_pairs() == self.constraint_pairs()
        &&& next.level_sets() == self.level_sets()
        &&& next.is_filled() == self.is_filled()
    }

    /// Whether every node that `inputs` names has a value.
    pub open spec fn seeded(&self, inputs: Map<usize, u32>) -> bool {
        forall|i: int|
            0 <= i < self.node_seq().len() && inputs.contains_key(i as usize)
                ==> (#[trigger] self.node_seq()[i]).value is Some
    }

    /// Changing values only, on a graph whose evaluation has begun, keeps it
    /// well formed.
    proof fn lemma_wf_values(&self, next: &CompGraph)
        requires
            self.wf(),
            next.is_filled(),
            same_shape(self.node_seq(), next.node_seq()),
            next.constraint_pairs() == self.constraint_pairs(),
            next.level_sets() == self.level_sets(),
            next.hints == self.hints,
            forall|i: int|
                0 <= i < next.node_seq().len() && (#[trigger] next.node_seq()[i]).node_type is Constant
                    ==> next.node_seq()[i].value is Some,
        ensures
            next.wf(),
    {
        let s = self.node_seq();
        let t = next.node_seq();
        assert forall|i: int| 0 <= i < t.len() implies #[trigger] node_shape_ok(t, i) by {
            assert(node_shape_ok(s, i));
            assert(s[i] == s[i]);
            assert(t[i].level == s[i].level);
            match s[i].node_type {
                NodeType::Derived { left, right, .. } => {
                    assert(t[left as int].level == s[left as int].level);
                    assert(t[right as int].level == s[right as int].level);
                },
                NodeType::Hint { dependent } => {
                    assert(t[dependent as int].level == s[dependent as int].level);
                },
                _ => {},
            }
        }
        assert forall|i: int| 0 <= i < t.len() implies (#[trigger] next.has_hint(i) <==> t[i].node_type is Hint) by {
            assert(self.has_hint(i) <==> s[i].node_type is Hint);
            assert(t[i].node_type == s[i].node_type);
        }
        assert forall|i: int| 0 <= i < t.len() && t[i].node_type is Hint implies #[trigger] next.hint_total(i) by {
            assert(t[i].node_type == s[i].node_type);
            assert(self.hint_total(i));
        }
        assert forall|i: int| 0 <= i < t.len() implies (#[trigger] t[i]).level < next.level_sets().len()
            && next.level_sets()[t[i].level as int].contains(i as usize) by {
            assert(s[i].level == t[i].level);
        }
        assert forall|l: int, k: int|
            0 <= l < next.level_sets().len() && 0 <= k < next.level_sets()[l].len() implies {
            let j = #[trigger] next.level_sets()[l][k];
            j < t.len() && t[j as int].level == l
        } by {
            let j = self.level_sets()[l][k];
            assert(s[j as int].level == t[j as int].level);
        }
    }

    fn write_value(&mut self, idx: usize, value: u32)
        requires
            idx < old(self).node_seq().len(),
        ensures
            final(self).node_seq() == old(self).node_seq().update(
                idx as int,
                Node { value: Some(value), ..old(self).node_seq()[idx as int] },
            ),
            final(self).hints == old(self).hints,
            final(self).constraints == old(self).constraints,
            final(self).levels == old(self).levels,
            final(self).filled == old(self).filled,
    {
        let mut n = self.nodes[idx];
        n.set_value(value);
        self.nodes.set(idx, n);
    }

    /// Resolves node `node_idx`: its value if present, else the value computed
    /// from its kind, after resolving its dependencies; the value is stored.
    fn fill_node(&mut self, node_idx: usize, inputs: &HashMap<usize, u32>) -> (r: Result<
        u32,
        EvalError,
    >)
        requires
            old(self).wf(),
            old(self).is_filled(),
            node_idx < old(self).node_seq().len(),
            old(self).sound(inputs@),
            old(self).seeded(inputs@),
        ensures
            final(self).wf(),
            old(self).values_grow(final(self)),
            final(self).hints == old(self).hints,
            final(self).sound(inputs@),
            final(self).seeded(inputs@),
            forall|i: int|
                node_idx < i < old(self).node_seq().len() ==> (#[trigger] final(self).node_seq()[i]).value
                    == old(self).node_seq()[i].value,
            r is Ok ==> final(self).node_seq()[node_idx as int].value == Some(r->Ok_0),
            old(self).node_seq()[node_idx as int].value is Some ==> r == Ok::<u32, EvalError>(
                old(self).node_seq()[node_idx as int].value.unwrap(),
            ) && *final(self) == *old(self),
            r is Err ==> final(self).node_seq()[node_idx as int].value is None,
            r matches Err(EvalError::InputNotProvided(j)) ==> {
                &&& reaches(old(self).node_seq(), node_idx as int, j as int)
                &&& j < old(self).node_seq().len()
                &&& old(self).node_seq()[j as int].node_type is Input
                &&& !inputs@.contains_key(j)
            },
            r matches Err(EvalError::HintFailed(j, msg)) ==> {
                &&& reaches(old(self).node_seq(), node_idx as int, j as int)
                &&& j < old(self).node_seq().len()
                &&& old(self).node_seq()[j as int].node_type is Hint
                &&& old(self).node_seq()[j as int].level <= old(self).node_seq()[node_idx as int].level
                &&& final(self).node_seq()[old(self).node_seq()[j as int].node_type->dependent as int].value is Some
                &&& final(self).hint_returns(
                    j as int,
                    final(self).node_seq()[old(self).node_seq()[j as int].node_type->dependent as int].value.unwrap(),
                    Err(msg),
                )
            },
        decreases node_idx,
    {
        let node = self.nodes[node_idx];
        let ghost s_old = self.node_seq();
        assert(node_shape_ok(self.node_seq(), node_idx as int));
        if let Some(val) = node.value {
            return Ok(val);
        }
        let res: u32 = match node.node_type {
            NodeType::Constant(val) => val,
            NodeType::Input => match inputs.get(&node_idx) {
                Some(v) => *v,
                None => {
                    return Err(EvalError::InputNotProvided(node_idx));
                },
            },
            NodeType::Derived { left, right, operation } => {
                let left_value = match self.fill_node(left, inputs) {
                    Ok(v) => v,
                    Err(e) => {
                        proof {
                            match e {
                                EvalError::InputNotProvided(j) => lemma_reaches_step(s_old, node_idx as int, left as int, j as int),
                                EvalError::HintFailed(j, _) => lemma_reaches_step(s_old, node_idx as int, left as int, j as int),
                            }
                        }
                        return Err(e);
                    },
                };
                let ghost s_mid = self.node_seq();
                let right_value = match self.fill_node(right, inputs) {
                    Ok(v) => v,
                    Err(e) => {
                        proof {
                            match e {
                                EvalError::InputNotProvided(j) => {
                                    lemma_reaches_same_shape(s_old, s_mid, right as int, j as int);
                                    lemma_reaches_step(s_old, node_idx as int, right as int, j as int);
                                },
                                EvalError::HintFailed(j, _) => {
                                    lemma_reaches_same_shape(s_old, s_mid, right as int, j as int);
                                    lemma_reaches_step(s_old, node_idx as int, right as int, j as int);
                                },
                            }
                        }
                        return Err(e);
                    },
                };
                compute(operation, left_value, right_value)
            },
            NodeType::Hint { dependent } => {
                let dep_value = match self.fill_node(dependent, inputs) {
                    Ok(v) => v,
                    Err(e) => {
                        proof {
                            match e {
                                EvalError::InputNotProvided(j) => lemma_reaches_step(s_old, node_idx as int, dependent as int, j as int),
                                EvalError::HintFailed(j, _) => lemma_reaches_step(s_old, node_idx as int, dependent as int, j as int),
                            }
                        }
                        return Err(e);
                    },
                };
                assert(self.has_hint(node_idx as int));
                assert(self.hint_total(node_idx as int));
                let hint_fn = self.hints[node_idx].as_ref().unwrap();
                proof {
                    assert(self.hints@[node_idx as int].unwrap().accepts(dep_value));
                }
                match hint_fn.apply(dep_value) {
                    Ok(val) => val,
                    Err(err) => {
                        return Err(EvalError::HintFailed(node_idx, err));
                    },
                }
            },
        };
        let ghost before = *self;
        self.write_value(node_idx, res);
        proof {
            assert(self.level_sets() == before.level_sets());
            assert forall|i: int| 0 <= i < self.node_seq().len() implies #[trigger] self.sound_at(inputs@, i) by {
                assert(before.sound_at(inputs@, i));
                if i != node_idx {
                    assert(node_shape_ok(before.node_seq(), i));
                }
            }
            assert forall|i: int|
                0 <= i < self.node_seq().len() && (#[trigger] self.node_seq()[i]).node_type is Constant
                    implies self.node_seq()[i].value is Some by {
                assert(before.node_seq()[i].node_type == self.node_seq()[i].node_type);
            }
            before.lemma_wf_values(self);
        }
        Ok(res)
    }

    /// Evaluates the graph: first every node that `input_nodes` names takes the
    /// value given there, whatever its kind; then the levels are resolved in
    /// increasing order, each node of a level after all nodes of earlier levels.
    ///
    /// The pass stops at the first input node without a value, and at the first
    /// hint function that fails. Inputs are all resolved before any hint, so a
    /// missing input is always what is reported when there is one. A graph is
    /// evaluated once; after a failed pass its values are not to be used.
    pub fn fill_nodes(&mut self, input_nodes: HashMap<usize, u32>) -> (r: Result<(), EvalError>)
        requires
            old(self).wf(),
            !old(self).is_filled(),
        ensures
            final(self).wf(),
            final(self).is_filled(),
            same_shape(old(self).node_seq(), final(self).node_seq()),
            final(self).constraint_pairs() == old(self).constraint_pairs(),
            final(self).level_sets() == old(self).level_sets(),
            old(self).hints_kept(final(self)),
            final(self).sound(input_nodes@),
            r is Ok ==> final(self).all_valued(),
            r matches Err(EvalError::InputNotProvided(j)) ==> {
                &&& j < old(self).node_seq().len()
                &&& old(self).node_seq()[j as int].node_type is Input
                &&& !input_nodes@.contains_key(j)
            },
            (exists|i: int|
                0 <= i < old(self).node_seq().len() && (#[trigger] old(self).node_seq()[i]).node_type is Input
                    && !input_nodes@.contains_key(i as usize)) ==> r matches Err(
                EvalError::InputNotProvided(_),
            ),
            r matches Err(EvalError::HintFailed(j, msg)) ==> {
                &&& j < old(self).node_seq().len()
                &&& old(self).node_seq()[j as int].node_type is Hint
                &&& final(self).node_seq()[old(self).node_seq()[j as int].node_type->dependent as int].value is Some
                &&& final(self).hint_returns(
                    j as int,
                    final(self).node_seq()[old(self).node_seq()[j as int].node_type->dependent as int].value.unwrap(),
                    Err(msg),
                )
            },
    {
        let ghost start = *self;
        let ghost inputs = input_nodes@;
        self.filled = true;
        let n = self.nodes.len();
        let mut i: usize = 0;
        while i < n
            invariant
                start.wf(),
                start == *old(self),
                !start.is_filled(),
                n == start.node_seq().len(),
                i <= n,
                self.is_filled(),
                same_shape(start.node_seq(), self.node_seq()),
                self.hints == start.hints,
                self.constraint_pairs() == start.constraint_pairs(),
                self.level_sets() == start.level_sets(),
                inputs == input_nodes@,
                forall|j: int|
                    0 <= j < n ==> (#[trigger] self.node_seq()[j]).value == if j < i
                        && inputs.contains_key(j as usize) {
                        Some(inputs[j as usize])
                    } else {
                        initial_value(self.node_seq()[j].node_type)
                    },
            decreases n - i,
        {
            match input_nodes.get(&i) {
                Some(v) => {
                    self.write_value(i, *v);
                },
                None => {},
            }
            i += 1;
        }
        proof {
            assert forall|j: int|
                0 <= j < self.node_seq().len() && (#[trigger] self.node_seq()[j]).node_type is Constant
                    implies self.node_seq()[j].value is Some by {}
            start.lemma_wf_values(self);
            assert forall|j: int| 0 <= j < n implies #[trigger] self.sound_at(inputs, j) by {}
        }
        let mut l: usize = 0;
        while l < self.levels.len()
            invariant
                self.wf(),
                self.is_filled(),
                n == start.node_seq().len(),
                same_shape(start.node_seq(), self.node_seq()),
                self.constraint_pairs() == start.constraint_pairs(),
                self.level_sets() == start.level_sets(),
                inputs == input_nodes@,
                start == *old(self),
                self.hints == start.hints,
                self.sound(inputs),
                self.seeded(inputs),
                forall|l2: int, k2: int|
                    0 <= l2 < l && 0 <= k2 < self.level_sets()[l2].len() ==> self.node_seq()[(
                    #[trigger] self.level_sets()[l2][k2]) as int].value is Some,
                l >= 1 ==> forall|j: int|
                    0 <= j < n && (#[trigger] start.node_seq()[j]).node_type is Input
                        ==> inputs.contains_key(j as usize),
            decreases self.level_sets().len() - l,
        {
            let ghost at_level = *self;
            let mut k: usize = 0;
            while k < self.levels[l].len()
                invariant
                    self.wf(),
                    self.is_filled(),
                    n == start.node_seq().len(),
                    l < self.level_sets().len(),
                    start == *old(self),
                    self.hints == start.hints,
                    same_shape(start.node_seq(), self.node_seq()),
                    self.constraint_pairs() == start.constraint_pairs(),
                    self.level_sets() == start.level_sets(),
                    inputs == input_nodes@,
                    self.sound(inputs),
                    self.seeded(inputs),
                    forall|l2: int, k2: int|
                        0 <= l2 < l && 0 <= k2 < self.level_sets()[l2].len() ==> self.node_seq()[(
                        #[trigger] self.level_sets()[l2][k2]) as int].value is Some,
                    l >= 1 ==> forall|j: int|
                        0 <= j < n && (#[trigger] start.node_seq()[j]).node_type is Input
                            ==> inputs.contains_key(j as usize),
                    forall|k2: int|
                        0 <= k2 < k ==> self.node_seq()[(#[trigger] self.level_sets()[l as int][k2]) as int].value is Some,
                decreases self.level_sets()[l as int].len() - k,
            {
                let idx = self.levels[l][k];
                assert(idx == self.level_sets()[l as int][k as int]);
                let ghost before = *self;
                match self.fill_node(idx, &input_nodes) {
                    Ok(_) => {},
                    Err(e) => {
                        proof {
                            assert forall|j: int| 0 <= j < n implies {
                                &&& (#[trigger] self.node_seq()[j]).index == start.node_seq()[j].index
                                &&& self.node_seq()[j].node_type == start.node_seq()[j].node_type
                                &&& self.node_seq()[j].level == start.node_seq()[j].level
                            } by {
                                assert(before.node_seq()[j] == before.node_seq()[j]);
                            }
                            if l == 0 {
                                match e {
                                    EvalError::HintFailed(j, _) => {
                                        assert(node_shape_ok(before.node_seq(), j as int));
                                    },
                                    _ => {},
                                }
                            }
                        }
                        return Err(e);
                    },
                }
                proof {
                    assert forall|l2: int, k2: int|
                        0 <= l2 < l && 0 <= k2 < self.level_sets()[l2].len() implies self.node_seq()[(
                        #[trigger] self.level_sets()[l2][k2]) as int].value is Some by {
                        let j = self.level_sets()[l2][k2] as int;
                        assert(before.node_seq()[j].value is Some);
                    }
                    assert forall|k2: int|
                        0 <= k2 < k + 1 implies self.node_seq()[(#[trigger] self.level_sets()[l as int][k2]) as int].value is Some by {
                        let j = self.level_sets()[l as int][k2] as int;
                        if k2 < k {
                            assert(before.node_seq()[j].value is Some);
                        }
                    }
                }
                k += 1;
            }
            proof {
                if l == 0 {
                    assert forall|j: int|
                        0 <= j < n && (#[trigger] start.node_seq()[j]).node_type is Input
                            implies inputs.contains_key(j as usize) by {
                        assert(self.node_seq()[j] == self.node_seq()[j]);
                        assert(node_shape_ok(self.node_seq(), j));
                        assert(self.level_sets()[0].contains(j as usize));
                        let k2 = choose|k2: int|
                            0 <= k2 < self.level_sets()[0].len() && self.level_sets()[0][k2]
                                == j as usize;
                        assert(self.node_seq()[self.level_sets()[0][k2] as int].value is Some);
                        assert(self.sound_at(inputs, j));
                    }
                }
            }
            l += 1;
        }
        proof {
            assert forall|j: int| 0 <= j < n implies (#[trigger] self.node_seq()[j]).value is Some by {
                let lj = self.node_seq()[j].level as int;
                assert(self.level_sets()[lj].contains(j as usize));
                let k2 = choose|k2: int|
                    0 <= k2 < self.level_sets()[lj].len() && self.level_sets()[lj][k2] == j as usize;
                assert(self.node_seq()[self.level_sets()[lj][k2] as int].value is Some);
            }
        }
        Ok(())
    }

    fn add_to_level(&mut self, idx: usize, level: usize)
        requires
            level <= old(self).level_sets().len(),
        ensures
            final(self).level_sets() == with_level_entry(old(self).level_sets(), level as int, idx),
            final(self).nodes == old(self).nodes,
            final(self).hints == old(self).hints,
            final(self).constraints == old(self).constraints,
            final(self).filled == old(self).filled,
    {
        if level >= self.levels.len() {
            self.levels.push(Vec::new());
        }
        let ghost ls = self.levels@;
        let mut row: Vec<usize> = Vec::new();
        self.levels.set_and_swap(level, &mut row);
        row.push(idx);
        self.levels.set_and_swap(level, &mut row);
        proof {
            assert(self.level_sets() =~= with_level_entry(old(self).level_sets(), level as int, idx));
        }
    }

    /// Appends a node of the given kind and level, with an empty registry
    /// entry, and files it under its level. The caller checks the graph's shape.
    fn push_node(
        &mut self,
        node_type: NodeType,
        level: usize,
    ) -> (r: usize)
        requires
            old(self).node_seq().len() < usize::MAX,
            old(self).hint_slots() == old(self).node_seq().len(),
            level <= old(self).level_sets().len(),
        ensures
            r == old(self).node_seq().len(),
            final(self).node_seq() == old(self).node_seq().push(
                Node {
                    index: r,
                    value: match node_type {
                        NodeType::Constant(c) => Some(c),
                        _ => None,
                    },
                    node_type,
                    level,
                },
            ),
            final(self).hints@ == old(self).hints@.push(None),
            old(self).hints_kept(final(self)),
            final(self).level_sets() == with_level_entry(old(self).level_sets(), level as int, r),
            final(self).constraint_pairs() == old(self).constraint_pairs(),
            final(self).is_filled() == old(self).is_filled(),
    {
        let idx = self.nodes.len();
        let mut new_node = Node::new(idx, node_type, level);
        match node_type {
            NodeType::Constant(c) => new_node.set_value(c),
            _ => {},
        }
        self.nodes.push(new_node);
        self.hints.push(None);
        self.add_to_level(idx, level);
        proof {
            assert forall|i: int, v: u32, x: Result<u32, String>|
                0 <= i < old(self).node_seq().len() implies #[trigger] self.hint_returns(i, v, x)
                    == old(self).hint_returns(i, v, x) by {
                assert(self.hints@[i] == old(self).hints@[i]);
            }
        }
        idx
    }

    /// A node appended by `push_node`, well placed, keeps the graph well formed.
    proof fn lemma_wf_push(&self, next: &CompGraph)
        requires
            self.wf(),
            next.node_seq().len() == self.node_seq().len() + 1,
            next.node_seq().drop_last() == self.node_seq(),
            next.hints@.drop_last() == self.hints@,
            next.hint_slots() == next.node_seq().len(),
            node_shape_ok(next.node_seq(), self.node_seq().len() as int),
            next.has_hint(self.node_seq().len() as int) <==> next.node_seq().last().node_type is Hint,
            next.node_seq().last().node_type is Hint ==> next.hint_total(self.node_seq().len() as int),
            next.node_seq().last().level <= self.level_sets().len(),
            next.level_sets() == with_level_entry(
                self.level_sets(),
                next.node_seq().last().level as int,
                self.node_seq().len() as usize,
            ),
            next.constraint_pairs() == self.constraint_pairs(),
            next.is_filled() == self.is_filled(),
            next.node_seq().last().value == initial_value(next.node_seq().last().node_type),
        ensures
            next.wf(),
    {
        let s = self.node_seq();
        let t = next.node_seq();
        let n = s.len() as int;
        assert forall|i: int| 0 <= i < t.len() implies #[trigger] node_shape_ok(t, i) by {
            if i < n {
                assert(t[i] == s[i]);
                assert(node_shape_ok(s, i));
                match s[i].node_type {
                    NodeType::Derived { left, right, .. } => {
                        assert(t[left as int] == s[left as int]);
                        assert(t[right as int] == s[right as int]);
                    },
                    NodeType::Hint { dependent } => {
                        assert(t[dependent as int] == s[dependent as int]);
                    },
                    _ => {},
                }
            }
        }
        assert forall|i: int| 0 <= i < t.len() implies (#[trigger] next.has_hint(i) <==> t[i].node_type is Hint) by {
            if i < n {
                assert(t[i] == s[i]);
                assert(self.has_hint(i) <==> s[i].node_type is Hint);
                assert(next.hints@[i] == self.hints@[i]);
            }
        }
        assert forall|i: int| 0 <= i < t.len() && t[i].node_type is Hint implies #[trigger] next.hint_total(i) by {
            if i < n {
                assert(t[i] == s[i]);
                assert(self.hint_total(i));
                assert(next.hints@[i] == self.hints@[i]);
            }
        }
        assert forall|i: int| 0 <= i < t.len() implies (#[trigger] t[i]).level < next.level_sets().len()
            && next.level_sets()[t[i].level as int].contains(i as usize) by {
            if i < n {
                assert(t[i] == s[i]);
                let li = s[i].level as int;
                assert(self.level_sets()[li].contains(i as usize));
                let k = choose|k: int| 0 <= k < self.level_sets()[li].len() && self.level_sets()[li][k] == i as usize;
                if li == t.last().level as int {
                    assert(next.level_sets()[li][k] == i as usize);
                } else {
                    assert(next.level_sets()[li] == self.level_sets()[li]);
                }
            } else {
                let li = t.last().level as int;
                if li < self.level_sets().len() {
                    assert(next.level_sets()[li].last() == i as usize);
                } else {
                    assert(next.level_sets()[li][0] == i as usize);
                }
            }
        }
        assert forall|l: int, k: int|
            0 <= l < next.level_sets().len() && 0 <= k < next.level_sets()[l].len() implies {
            let j = #[trigger] next.level_sets()[l][k];
            j < t.len() && t[j as int].level == l
        } by {
            let j = next.level_sets()[l][k];
            if l < self.level_sets().len() && k < self.level_sets()[l].len() {
                assert(j == self.level_sets()[l][k]);
                assert(t[j as int] == s[j as int]);
            }
        }
        assert forall|l: int| 0 <= l < next.level_sets().len() implies (#[trigger] next.level_sets()[l]).no_duplicates() by {
            let lt = t.last().level as int;
            if l == lt && l < self.level_sets().len() {
                let old_row = self.level_sets()[l];
                let row = next.level_sets()[l];
                assert(old_row.no_duplicates());
                assert forall|a: int, b: int| 0 <= a < row.len() && 0 <= b < row.len() && a != b implies row[a] != row[b] by {
                    if a < old_row.len() {
                        assert(row[a] == old_row[a]);
                        assert(old_row[a] < n);
                    }
                    if b < old_row.len() {
                        assert(row[b] == old_row[b]);
                        assert(old_row[b] < n);
                    }
                }
            } else if l < self.level_sets().len() {
                assert(next.level_sets()[l] == self.level_sets()[l]);
            } else {
                assert(next.level_sets()[l] == seq![n as usize]);
            }
        }
        assert forall|k: int|
            0 <= k < next.constraint_pairs().len() implies (#[trigger] next.constraint_pairs()[k]).0
                < t.len() && next.constraint_pairs()[k].1 < t.len() by {
            assert(self.constraint_pairs()[k] == next.constraint_pairs()[k]);
        }
        assert forall|i: int| 0 <= i < t.len() && (#[trigger] t[i]).node_type is Constant implies t[i].value is Some by {
            if i < n {
                assert(t[i] == s[i]);
            }
        }
        if !next.is_filled() {
            assert forall|i: int| 0 <= i < t.len() implies (#[trigger] t[i]).value == initial_value(t[i].node_type) by {
                if i < n {
                    assert(t[i] == s[i]);
                }
            }
        }
    }

    /// Adds an input node at level 0 and returns its index.
    pub fn init(&mut self) -> (r: usize)
        requires
            old(self).wf(),
            old(self).node_seq().len() < usize::MAX,
        ensures
            final(self).wf(),
            r == old(self).node_seq().len(),
            final(self).node_seq() == old(self).node_seq().push(
                Node { index: r, value: None, node_type: NodeType::Input, level: 0 },
            ),
            final(self).level_sets() == with_level_entry(old(self).level_sets(), 0, r),
            final(self).constraint_pairs() == old(self).constraint_pairs(),
            final(self).is_filled() == old(self).is_filled(),
            old(self).hints_kept(final(self)),
    {
        let ghost before = *self;
        let idx = self.push_node(NodeType::Input, 0);
        proof {
            assert(self.node_seq().drop_last() =~= before.node_seq());
            assert(self.hints@.drop_last() =~= before.hints@);
            before.lemma_wf_push(self);
        }
        idx
    }

    /// Adds a constant node at level 0, its value set to `value` at once, and
    /// returns its index.
    pub fn constant(&mut self, value: u32) -> (r: usize)
        requires
            old(self).wf(),
            old(self).node_seq().len() < usize::MAX,
        ensures
            final(self).wf(),
            r == old(self).node_seq().len(),
            final(self).node_seq() == old(self).node_seq().push(
                Node { index: r, value: Some(value), node_type: NodeType::Constant(value), level: 0 },
            ),
            final(self).level_sets() == with_level_entry(old(self).level_sets(), 0, r),
            final(self).constraint_pairs() == old(self).constraint_pairs(),
            final(self).is_filled() == old(self).is_filled(),
            old(self).hints_kept(final(self)),
    {
        let ghost before = *self;
        let idx = self.push_node(NodeType::Constant(value), 0);
        proof {
            assert(self.node_seq().drop_last() =~= before.node_seq());
            assert(self.hints@.drop_last() =~= before.hints@);
            before.lemma_wf_push(self);
        }
        idx
    }

    /// Adds a derived node applying `operation` to nodes `a` and `b`, one
    /// level above the higher of the two.
    fn derive_node(&mut self, a: usize, b: usize, operation: Operation) -> (r: Result<
        usize,
        GraphError,
    >)
        requires
            old(self).wf(),
            old(self).node_seq().len() < usize::MAX,
        ensures
            final(self).wf(),
            r is Err <==> (a >= old(self).node_seq().len() || b >= old(self).node_seq().len()),
            r is Err ==> r == Err::<usize, GraphError>(GraphError::NodeDoesNotExist) && *final(self)
                == *old(self),
            r is Ok ==> {
                let idx = r->Ok_0;
                let level = max_level(
                    old(self).node_seq()[a as int].level,
                    old(self).node_seq()[b as int].level,
                ) + 1;
                &&& idx == old(self).node_seq().len()
                &&& final(self).node_seq() == old(self).node_seq().push(
                    Node {
                        index: idx,
                        value: None,
                        node_type: NodeType::Derived { left: a, right: b, operation },
                        level: level as usize,
                    },
                )
                &&& final(self).level_sets() == with_level_entry(old(self).level_sets(), level, idx)
                &&& final(self).constraint_pairs() == old(self).constraint_pairs()
                &&& final(self).is_filled() == old(self).is_filled()
                &&& old(self).hints_kept(final(self))
            },
    {
        if a >= self.nodes.len() || b >= self.nodes.len() {
            return Err(GraphError::NodeDoesNotExist);
        }
        let a_level = self.nodes[a].level;
        let b_level = self.nodes[b].level;
        proof {
            self.lemma_level_below_index(a as int);
            self.lemma_level_below_index(b as int);
        }
        let new_level = if a_level >= b_level {
            a_level + 1
        } else {
            b_level + 1
        };
        let ghost before = *self;
        let idx = self.push_node(
            NodeType::Derived { left: a, right: b, operation },
            new_level,
        );
        proof {
            assert(self.node_seq().drop_last() =~= before.node_seq());
            assert(self.hints@.drop_last() =~= before.hints@);
            before.lemma_wf_push(self);
        }
        Ok(idx)
    }

    /// A node's level is at most its index, and below the number of levels.
    proof fn lemma_level_below_index(&self, i: int)
        requires
            self.wf(),
            0 <= i < self.node_seq().len(),
        ensures
            self.node_seq()[i].level <= i,
            self.node_seq()[i].level < self.level_sets().len(),
        decreases i,
    {
        let s = self.node_seq();
        assert(node_shape_ok(s, i));
        assert(s[i] == s[i]);
        match s[i].node_type {
            NodeType::Derived { left, right, .. } => {
                self.lemma_level_below_index(left as int);
                self.lemma_level_below_index(right as int);
            },
            NodeType::Hint { dependent } => {
                self.lemma_level_below_index(dependent as int);
            },
            _ => {},
        }
    }

    /// Adds a node for the sum of nodes `a` and `b` and returns its index.
    /// Fails, changing nothing, if either index names no node.
    pub fn add(&mut self, a: usize, b: usize) -> (r: Result<usize, GraphError>)
        requires
            old(self).wf(),
            old(self).node_seq().len() < usize::MAX,
        ensures
            final(self).wf(),
            r is Err <==> (a >= old(self).node_seq().len() || b >= old(self).node_seq().len()),
            r is Err ==> r == Err::<usize, GraphError>(GraphError::NodeDoesNotExist) && *final(self)
                == *old(self),
            r is Ok ==> {
                let idx = r->Ok_0;
                let level = max_level(
                    old(self).node_seq()[a as int].level,
                    old(self).node_seq()[b as int].level,
                ) + 1;
                &&& idx == old(self).node_seq().len()
                &&& final(self).node_seq() == old(self).node_seq().push(
                    Node {
                        index: idx,
                        value: None,
                        node_type: NodeType::Derived { left: a, right: b, operation: Operation::Add },
                        level: level as usize,
                    },
                )
                &&& final(self).level_sets() == with_level_entry(old(self).level_sets(), level, idx)
                &&& final(self).constraint_pairs() == old(self).constraint_pairs()
                &&& final(self).is_filled() == old(self).is_filled()
                &&& old(self).hints_kept(final(self))
            },
    {
        self.derive_node(a, b, Operation::Add)
    }

    /// Adds a node for the product of nodes `a` and `b` and returns its index.
    /// Fails, changing nothing, if either index names no node.
    pub fn mul(&mut self, a: usize, b: usize) -> (r: Result<usize, GraphError>)
        requires
            old(self).wf(),
            old(self).node_seq().len() < usize::MAX,
        ensures
            final(self).wf(),
            r is Err <==> (a >= old(self).node_seq().len() || b >= old(self).node_seq().len()),
            r is Err ==> r == Err::<usize, GraphError>(GraphError::NodeDoesNotExist) && *final(self)
                == *old(self),
            r is Ok ==> {
                let idx = r->Ok_0;
                let level = max_level(
                    old(self).node_seq()[a as int].level,
                    old(self).node_seq()[b as int].level,
                ) + 1;
                &&& idx == old(self).node_seq().len()
                &&& final(self).node_seq() == old(self).node_seq().push(
                    Node {
                        index: idx,
                        value: None,
                        node_type: NodeType::Derived { left: a, right: b, operation: Operation::Mul },
                        level: level as usize,
                    },
                )
                &&& final(self).level_sets() == with_level_entry(old(self).level_sets(), level, idx)
                &&& final(self).constraint_pairs() == old(self).constraint_pairs()
                &&& final(self).is_filled() == old(self).is_filled()
                &&& old(self).hints_kept(final(self))
            },
    {
        self.derive_node(a, b, Operation::Mul)
    }

    /// Records that nodes `a` and `b` must end up with equal values.
    /// Fails, changing nothing, if either index names no node.
    pub fn assert_equal(&mut self, a: usize, b: usize) -> (r: Result<(), GraphError>)
        requires
            old(self).wf(),
        ensures
            final(self).wf(),
            r is Err <==> (a >= old(self).node_seq().len() || b >= old(self).node_seq().len()),
            r is Err ==> r == Err::<(), GraphError>(GraphError::NodeDoesNotExist) && *final(self)
                == *old(self),
            r is Ok ==> {
                &&& final(self).constraint_pairs() == old(self).constraint_pairs().push((a, b))
                &&& final(self).node_seq() == old(self).node_seq()
                &&& final(self).level_sets() == old(self).level_sets()
                &&& final(self).is_filled() == old(self).is_filled()
                &&& old(self).hints_kept(final(self))
            },
    {
        if a >= self.nodes.len() || b >= self.nodes.len() {
            return Err(GraphError::NodeDoesNotExist);
        }
        let ghost before = *self;
        self.constraints.push((a, b));
        proof {
            assert forall|i: int, v: u32, x: Result<u32, String>|
                0 <= i < before.node_seq().len() implies #[trigger] self.hint_returns(i, v, x)
                    == before.hint_returns(i, v, x) by {}
            let s = self.node_seq();
            assert forall|i: int| 0 <= i < s.len() implies #[trigger] self.has_hint(i) <==> s[i].node_type is Hint by {
                assert(before.has_hint(i) <==> s[i].node_type is Hint);
            }
            assert forall|i: int| 0 <= i < s.len() && s[i].node_type is Hint implies #[trigger] self.hint_total(i) by {
                assert(before.hint_total(i));
            }
            assert forall|k: int|
                0 <= k < self.constraint_pairs().len() implies (#[trigger] self.constraint_pairs()[k]).0
                    < s.len() && self.constraint_pairs()[k].1 < s.len() by {
                if k < before.constraint_pairs().len() {
                    assert(self.constraint_pairs()[k] == before.constraint_pairs()[k]);
                }
            }
        }
        Ok(())
    }

    /// Adds a hint node on `dependent_idx` with the registry entry `entry`.
    fn push_hint_node(&mut self, dependent_idx: usize, entry: Option<Box<dyn HintFunction>>) -> (r:
        usize)
        requires
            old(self).wf(),
            old(self).node_seq().len() < usize::MAX,
            dependent_idx < old(self).node_seq().len(),
            entry is Some,
            forall|v: u32| #[trigger] entry.unwrap().accepts(v),
        ensures
            final(self).wf(),
            r == old(self).node_seq().len(),
            final(self).node_seq() == old(self).node_seq().push(
                Node {
                    index: r,
                    value: None,
                    node_type: NodeType::Hint { dependent: dependent_idx },
                    level: (old(self).node_seq()[dependent_idx as int].level + 1) as usize,
                },
            ),
            forall|v: u32, x: Result<u32, String>|
                final(self).hint_returns(r as int, v, x) == entry.unwrap().gives(v, x),
            final(self).level_sets() == with_level_entry(
                old(self).level_sets(),
                old(self).node_seq()[dependent_idx as int].level + 1,
                r,
            ),
            final(self).constraint_pairs() == old(self).constraint_pairs(),
            final(self).is_filled() == old(self).is_filled(),
            old(self).hints_kept(final(self)),
    {
        let dep_level = self.nodes[dependent_idx].level;
        proof {
            self.lemma_level_below_index(dependent_idx as int);
        }
        let ghost before = *self;
        let idx = self.push_node(NodeType::Hint { dependent: dependent_idx }, dep_level + 1);
        let ghost mid = *self;
        self.hints.set(idx, entry);
        proof {
            assert forall|i: int, v: u32, x: Result<u32, String>|
                0 <= i < before.node_seq().len() implies #[trigger] self.hint_returns(i, v, x)
                    == before.hint_returns(i, v, x) by {
                assert(self.hints@[i] == mid.hints@[i]);
                assert(mid.hint_returns(i, v, x) == before.hint_returns(i, v, x));
            }
            assert(self.node_seq().drop_last() =~= before.node_seq());
            assert(self.hints@.drop_last() =~= before.hints@);
            assert(self.has_hint(idx as int));
            assert forall|v: u32| #[trigger] self.hints@[idx as int].unwrap().accepts(v) by {
                assert(entry.unwrap().accepts(v));
            }
            assert(self.hint_total(idx as int));
            before.lemma_wf_push(self);
        }
        idx
    }

    /// Adds a hint node whose value `hint_fn` computes from the value of node
    /// `dependent_idx`, one level above it, and returns its index. Fails,
    /// changing nothing, if `dependent_idx` names no node.
    pub fn hint<F>(&mut self, dependent_idx: usize, hint_fn: F) -> (r: Result<usize, GraphError>) where
        F: Fn(u32) -> Result<u32, String> + 'static,

        requires
            old(self).wf(),
            old(self).node_seq().len() < usize::MAX,
            forall|v: u32| call_requires(hint_fn, (v,)),
        ensures
            final(self).wf(),
            r is Err <==> dependent_idx >= old(self).node_seq().len(),
            r is Err ==> r == Err::<usize, GraphError>(GraphError::DependentNodeDoesNotExist)
                && *final(self) == *old(self),
            r is Ok ==> {
                let idx = r->Ok_0;
                let level = old(self).node_seq()[dependent_idx as int].level + 1;
                &&& idx == old(self).node_seq().len()
                &&& final(self).node_seq() == old(self).node_seq().push(
                    Node {
                        index: idx,
                        value: None,
                        node_type: NodeType::Hint { dependent: dependent_idx },
                        level: level as usize,
                    },
                )
                &&& forall|v: u32, x: Result<u32, String>|
                    final(self).hint_returns(idx as int, v, x) == call_ensures(hint_fn, (v,), x)
                &&& final(self).level_sets() == with_level_entry(old(self).level_sets(), level, idx)
                &&& final(self).constraint_pairs() == old(self).constraint_pairs()
                &&& final(self).is_filled() == old(self).is_filled()
                &&& old(self).hints_kept(final(self))
            },
    {
        if dependent_idx >= self.nodes.len() {
            return Err(GraphError::DependentNodeDoesNotExist);
        }
        let entry: Option<Box<dyn HintFunction>> = Some(Box::new(hint_fn));
        let ghost e = entry;
        assert(forall|v: u32| e.unwrap().accepts(v) == call_requires(hint_fn, (v,)));
        let idx = self.push_hint_node(dependent_idx, entry);
        proof {
            assert forall|v: u32, x: Result<u32, String>|
                #[trigger] self.hint_returns(idx as int, v, x) == call_ensures(hint_fn, (v,), x) by {
                assert(self.hint_returns(idx as int, v, x) == e.unwrap().gives(v, x));
                assert(e.unwrap().gives(v, x) == call_ensures(hint_fn, (v,), x));
            }
        }
        Ok(idx)
    }

    /// Whether every constraint holds: both of its nodes have the same value.
    /// To be called after a successful evaluation pass.
    pub fn check_constraints(&self) -> (r: bool)
        requires
            self.wf(),
            self.all_valued(),
        ensures
            r == constraints_hold(self.node_seq(), self.constraint_pairs()),
    {
        let mut k: usize = 0;
        while k < self.constraints.len()
            invariant
                self.wf(),
                self.all_valued(),
                k <= self.constraint_pairs().len(),
                constraints_hold(self.node_seq(), self.constraint_pairs().take(k as int)),
            decreases self.constraint_pairs().len() - k,
        {
            let (n1, n2) = self.constraints[k];
            assert(self.constraint_pairs()[k as int] == (n1, n2));
            let val1 = self.nodes[n1].get_value().unwrap();
            let val2 = self.nodes[n2].get_value().unwrap();
            if val1 != val2 {
                assert(!constraints_hold(self.node_seq(), self.constraint_pairs())) by {
                    assert(self.constraint_pairs()[k as int] == (n1, n2));
                }
                return false;
            }
            assert(constraints_hold(self.node_seq(), self.constraint_pairs().take(k + 1))) by {
                assert forall|j: int| 0 <= j < k + 1 implies self.node_seq()[(#[trigger] self.constraint_pairs().take(k + 1)[j]).0 as int].value
                    == self.node_seq()[self.constraint_pairs().take(k + 1)[j].1 as int].value by {
                    if j < k {
                        assert(self.constraint_pairs().take(k as int)[j] == self.constraint_pairs().take(k + 1)[j]);
                    }
                }
            }
            k += 1;
        }
        assert(self.constraint_pairs().take(k as int) =~= self.constraint_pairs());
        true
    }

    /// The violated constraints, in the order they were asserted, each with
    /// both node indices and their differing values. To be called after a
    /// successful evaluation pass.
    pub fn constraint_violations(&self) -> (r: Vec<ConstraintViolation>)
        requires
            self.wf(),
            self.all_valued(),
        ensures
            r@ == violations_of(self.node_seq(), self.constraint_pairs()),
    {
        let mut out: Vec<ConstraintViolation> = Vec::new();
        let mut k: usize = 0;
        while k < self.constraints.len()
            invariant
                self.wf(),
                self.all_valued(),
                k <= self.constraint_pairs().len(),
                out@ == violations_of(self.node_seq(), self.constraint_pairs().take(k as int)),
            decreases self.constraint_pairs().len() - k,
        {
            let (n1, n2) = self.constraints[k];
            assert(self.constraint_pairs()[k as int] == (n1, n2));
            let val1 = self.nodes[n1].get_value().unwrap();
            let val2 = self.nodes[n2].get_value().unwrap();
            assert(self.constraint_pairs().take(k + 1).drop_last() =~= self.constraint_pairs().take(k as int));
            if val1 != val2 {
                out.push(ConstraintViolation { left: n1, left_value: val1, right: n2, right_value: val2 });
            }
            k += 1;
        }
        assert(self.constraint_pairs().take(k as int) =~= self.constraint_pairs());
        out
    }

    /// Creates a new, empty graph.
    pub fn new() -> (r: Self)
        ensures
            r.wf(),
            r.node_seq().len() == 0,
            r.constraint_pairs().len() == 0,
            r.level_sets() == seq![Seq::<usize>::empty()],
            !r.is_filled(),
    {
        let r = CompGraph {
            nodes: Vec::new(),
            constraints: Vec::new(),
            hints: Vec::new(),
            filled: false,
            levels: vec![Vec::new()],
        };
        assert(r.level_sets() =~= seq![Seq::<usize>::empty()]);
        r
    }
}

} // verus!
