use vstd::prelude::*;

use crate::computational_graph::{
    binary_value, unary_value, BinaryOp, ComputeGraph, Kind, NodeImpl, UnaryOp,
};

verus! {

/// A handle on one node of a graph: its position there. Copies of a handle
/// name the same node.
#[derive(Clone, Copy, PartialEq, Eq, Debug)]
pub struct Node {
    pub id: usize,
}

/// A handle on an input node: the only kind of node whose value can be set.
#[derive(Clone, Copy, PartialEq, Eq, Debug)]
pub struct Input {
    pub id: usize,
}

impl Node {
    pub fn new(id: usize) -> (r: Node)
        ensures
            r.id == id,
    {
        Node { id }
    }

    pub fn get_node<'a, V: Copy, U: Fn(UnaryOp<V>, V) -> V, B: Fn(BinaryOp, V, V) -> V>(
        &self,
        g: &'a ComputeGraph<V, U, B>,
    ) -> (r: &'a NodeImpl<V>)
        requires
            self.id < g.len(),
        ensures
            *r == g.spec_nodes()[self.id as int],
    {
        g.get_node(*self)
    }

    /// The value of this node; see `ComputeGraph::compute`.
    pub fn compute<V: Copy, U: Fn(UnaryOp<V>, V) -> V, B: Fn(BinaryOp, V, V) -> V>(
        &self,
        g: &mut ComputeGraph<V, U, B>,
    ) -> (r: V)
        requires
            old(g).wf(),
            self.id < old(g).len(),
        ensures
            old(g).compute_post(self.id as int, *final(g), r),
    {
        g.compute(*self)
    }
}

impl Input {
    /// This input as an operand for other nodes.
    pub fn node(&self) -> (r: Node)
        ensures
            r.id == self.id,
    {
        Node::new(self.id)
    }

    /// Stores `v` in this input and empties the cache of every node that
    /// reads it; every other cache is kept.
    pub fn set<V: Copy, U: Fn(UnaryOp<V>, V) -> V, B: Fn(BinaryOp, V, V) -> V>(
        &self,
        g: &mut ComputeGraph<V, U, B>,
        v: V,
    )
        requires
            old(g).wf(),
            old(g).is_input(self.id as int),
        ensures
            old(g).set_post(self.id as int, v, *final(g)),
    {
        g.set_input(self.id, v);
    }

    /// The value of this input; see `ComputeGraph::compute`.
    pub fn compute<V: Copy, U: Fn(UnaryOp<V>, V) -> V, B: Fn(BinaryOp, V, V) -> V>(
        &self,
        g: &mut ComputeGraph<V, U, B>,
    ) -> (r: V)
        requires
            old(g).wf(),
            self.id < old(g).len(),
        ensures
            old(g).compute_post(self.id as int, *final(g), r),
    {
        g.compute(self.node())
    }
}

/// A new input of `g` named `name`, holding `initial`.
pub fn create_input<V: Copy, U: Fn(UnaryOp<V>, V) -> V, B: Fn(BinaryOp, V, V) -> V>(
    g: &mut ComputeGraph<V, U, B>,
    name: &'static str,
    initial: V,
) -> (r: Input)
    requires
        old(g).wf(),
        old(g).len() < usize::MAX,
    ensures
        r.id == old(g).len(),
        old(g).appended(*final(g), name, Kind::Input(initial)),
        final(g).is_input(r.id as int),
        final(g).value(r.id as int) == initial,
{
    let id = g.push_node(name, Kind::Input(initial));
    Input { id }
}

/// A new node of `g` that applies `op` to `lhs` and `rhs`.
fn binary_node<V: Copy, U: Fn(UnaryOp<V>, V) -> V, B: Fn(BinaryOp, V, V) -> V>(
    g: &mut ComputeGraph<V, U, B>,
    name: &'static str,
    op: BinaryOp,
    lhs: Node,
    rhs: Node,
) -> (r: Node)
    requires
        old(g).wf(),
        old(g).len() < usize::MAX,
        lhs.id < old(g).len(),
        rhs.id < old(g).len(),
    ensures
        r.id == old(g).len(),
        old(g).appended(*final(g), name, Kind::Binary(op, lhs.id, rhs.id)),
        final(g).value(r.id as int) == binary_value(
            old(g).binary_fn(),
            op,
            old(g).value(lhs.id as int),
            old(g).value(rhs.id as int),
        ),
{
    let ghost g0 = *g;
    let id = g.push_node(name, Kind::Binary(op, lhs.id, rhs.id));
    proof {
        g0.lemma_value_prefix(*g, lhs.id as int);
        g0.lemma_value_prefix(*g, rhs.id as int);
    }
    Node { id }
}

/// A new node of `g` that applies `op` to `arg`.
fn unary_node<V: Copy, U: Fn(UnaryOp<V>, V) -> V, B: Fn(BinaryOp, V, V) -> V>(
    g: &mut ComputeGraph<V, U, B>,
    name: &'static str,
    op: UnaryOp<V>,
    arg: Node,
) -> (r: Node)
    requires
        old(g).wf(),
        old(g).len() < usize::MAX,
        arg.id < old(g).len(),
    ensures
        r.id == old(g).len(),
        old(g).appended(*final(g), name, Kind::Unary(op, arg.id)),
        final(g).value(r.id as int) == unary_value(old(g).unary_fn(), op, old(g).value(arg.id as int)),
{
    let ghost g0 = *g;
    let id = g.push_node(name, Kind::Unary(op, arg.id));
    proof {
        g0.lemma_value_prefix(*g, arg.id as int);
    }
    Node { id }
}

/// A new node of `g` computing `lhs + rhs`.
pub fn add<V: Copy, U: Fn(UnaryOp<V>, V) -> V, B: Fn(BinaryOp, V, V) -> V>(
    g: &mut ComputeGraph<V, U, B>,
    lhs: Node,
    rhs: Node,
) -> (r: Node)
    requires
        old(g).wf(),
        old(g).len() < usize::MAX,
        lhs.id < old(g).len(),
        rhs.id < old(g).len(),
    ensures
        r.id == old(g).len(),
        old(g).appended(*final(g), "add", Kind::Binary(BinaryOp::Add, lhs.id, rhs.id)),
        final(g).value(r.id as int) == binary_value(
            old(g).binary_fn(),
            BinaryOp::Add,
            old(g).value(lhs.id as int),
            old(g).value(rhs.id as int),
        ),
{
    binary_node(g, "add", BinaryOp::Add, lhs, rhs)
}

/// A new node of `g` computing `lhs * rhs`.
pub fn mul<V: Copy, U: Fn(UnaryOp<V>, V) -> V, B: Fn(BinaryOp, V, V) -> V>(
    g: &mut ComputeGraph<V, U, B>,
    lhs: Node,
    rhs: Node,
) -> (r: Node)
    requires
        old(g).wf(),
        old(g).len() < usize::MAX,
        lhs.id < old(g).len(),
        rhs.id < old(g).len(),
    ensures
        r.id == old(g).len(),
        old(g).appended(*final(g), "mul", Kind::Binary(BinaryOp::Mul, lhs.id, rhs.id)),
        final(g).value(r.id as int) == binary_value(
            old(g).binary_fn(),
            BinaryOp::Mul,
            old(g).value(lhs.id as int),
            old(g).value(rhs.id as int),
        ),
{
    binary_node(g, "mul", BinaryOp::Mul, lhs, rhs)
}

/// A new node of `g` computing the sine of `node`.
pub fn sin<V: Copy, U: Fn(UnaryOp<V>, V) -> V, B: Fn(BinaryOp, V, V) -> V>(
    g: &mut ComputeGraph<V, U, B>,
    node: Node,
) -> (r: Node)
    requires
        old(g).wf(),
        old(g).len() < usize::MAX,
        node.id < old(g).len(),
    ensures
        r.id == old(g).len(),
        old(g).appended(*final(g), "sin", Kind::Unary(UnaryOp::Sin, node.id)),
        final(g).value(r.id as int) == unary_value(
            old(g).unary_fn(),
            UnaryOp::Sin,
            old(g).value(node.id as int),
        ),
{
    unary_node(g, "sin", UnaryOp::Sin, node)
}

/// A new node of `g` computing `node` raised to `degree`.
pub fn pow_f32<V: Copy, U: Fn(UnaryOp<V>, V) -> V, B: Fn(BinaryOp, V, V) -> V>(
    g: &mut ComputeGraph<V, U, B>,
    node: Node,
    degree: V,
) -> (r: Node)
    requires
        old(g).wf(),
        old(g).len() < usize::MAX,
        node.id < old(g).len(),
    ensures
        r.id == old(g).len(),
        old(g).appended(*final(g), "pow_f32", Kind::Unary(UnaryOp::Pow(degree), node.id)),
        final(g).value(r.id as int) == unary_value(
            old(g).unary_fn(),
            UnaryOp::Pow(degree),
            old(g).value(node.id as int),
        ),
{
    unary_node(g, "pow_f32", UnaryOp::Pow(degree), node)
}

} // verus!
