use vstd::prelude::*;

use crate::computational_graph::{children_before, BinaryOp, ComputeGraph, Kind, UnaryOp};
use crate::node::Node;

verus! {

/// The cache holds a value.
pub fn is_valid<V: Copy>(cache: Option<V>) -> (r: bool)
    ensures
        r == cache is Some,
{
    match cache {
        Some(_) => true,
        None => false,
    }
}

/// The name and cache state of node `n` and of every node below it, depth
/// first, operands in order; a node reached along two paths is listed twice.
pub open spec fn traversal<V: Copy, U: Fn(UnaryOp<V>, V) -> V, B: Fn(BinaryOp, V, V) -> V>(
    g: ComputeGraph<V, U, B>,
    n: int,
) -> Seq<(&'static str, bool)>
    decreases n,
{
    if 0 <= n < g.len() {
        let here = seq![(g.name(n), g.cache(n) is Some)];
        match g.kind(n) {
            Kind::Input(_) => here,
            Kind::Unary(_, a) => if a < n {
                here + traversal(g, a as int)
            } else {
                here
            },
            Kind::Binary(_, a, b) => if a < n && b < n {
                here + traversal(g, a as int) + traversal(g, b as int)
            } else {
                here
            },
        }
    } else {
        Seq::empty()
    }
}

/// Lists the name and cache state of `node` and of every node below it, as
/// `traversal` says; reads the graph and changes nothing.
pub fn traverse<V: Copy, U: Fn(UnaryOp<V>, V) -> V, B: Fn(BinaryOp, V, V) -> V>(
    g: &ComputeGraph<V, U, B>,
    node: &Node,
) -> (r: Vec<(&'static str, bool)>)
    requires
        g.wf(),
        node.id < g.len(),
    ensures
        r@ == traversal(*g, node.id as int),
    decreases node.id,
{
    let n = g.get_node(*node);
    let mut r: Vec<(&'static str, bool)> = Vec::new();
    r.push((n.get_name(), is_valid(n.get_cache())));
    proof {
        assert(children_before(g.kind(node.id as int), node.id as int));
    }
    match n.kind {
        Kind::Input(_) => {},
        Kind::Unary(_, a) => {
            let mut below = traverse(g, &Node::new(a));
            r.append(&mut below);
        },
        Kind::Binary(_, a, b) => {
            let mut left = traverse(g, &Node::new(a));
            r.append(&mut left);
            let mut right = traverse(g, &Node::new(b));
            r.append(&mut right);
        },
    }
    r
}

} // verus!
