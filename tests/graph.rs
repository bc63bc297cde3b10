use compgraph::computational_graph::{BinaryOp, ComputeGraph, Kind, UnaryOp};
use compgraph::node;
use compgraph::node::{create_input, pow_f32, sin, Input, Node};
use compgraph::utils::{is_valid, traverse};

type Graph = ComputeGraph<f32, fn(UnaryOp<f32>, f32) -> f32, fn(BinaryOp, f32, f32) -> f32>;

fn unary(op: UnaryOp<f32>, x: f32) -> f32 {
    match op {
        UnaryOp::Sin => x.sin(),
        UnaryOp::Pow(degree) => x.powf(degree),
    }
}

fn binary(op: BinaryOp, x: f32, y: f32) -> f32 {
    match op {
        BinaryOp::Add => x + y,
        BinaryOp::Mul => x * y,
    }
}

fn new_graph() -> Graph {
    ComputeGraph::new(
        unary as fn(UnaryOp<f32>, f32) -> f32,
        binary as fn(BinaryOp, f32, f32) -> f32,
    )
}

fn round(x: f32, precision: u32) -> f32 {
    let m = 10i32.pow(precision) as f32;
    (x * m).round() / m
}

fn valid(g: &Graph, n: Node) -> bool {
    is_valid(n.get_node(g).get_cache())
}

fn input(g: &mut Graph, name: &'static str) -> Input {
    create_input(g, name, 0f32)
}

/// x1 + x2 * sin(x2 + x3^3)
fn sample(g: &mut Graph, x1: Input, x2: Input, x3: Input) -> Node {
    let cube = pow_f32(g, x3.node(), 3f32);
    let inner = node::add(g, x2.node(), cube);
    let s = sin(g, inner);
    let prod = node::mul(g, x2.node(), s);
    node::add(g, x1.node(), prod)
}

#[test]
fn invalidate_test() {
    let mut g = new_graph();
    let x1 = input(&mut g, "x1");
    let x2 = input(&mut g, "x2");
    let x3 = input(&mut g, "x3");
    let graph = sample(&mut g, x1, x2, x3);
    assert_eq!(valid(&g, graph), false);
    x1.set(&mut g, 1f32);
    x2.set(&mut g, 2f32);
    x3.set(&mut g, 3f32);
    assert_eq!(valid(&g, graph), false);
    graph.compute(&mut g);
    assert_eq!(valid(&g, graph), true);
    x1.set(&mut g, 3f32);
    assert_eq!(valid(&g, graph), false);
}

#[test]
fn compute_test() {
    let mut g = new_graph();
    let x1 = input(&mut g, "x1");
    let x2 = input(&mut g, "x2");
    let x3 = input(&mut g, "x3");
    let graph = sample(&mut g, x1, x2, x3);
    x1.set(&mut g, 1f32);
    x2.set(&mut g, 2f32);
    x3.set(&mut g, 3f32);
    let mut result = graph.compute(&mut g);
    result = round(result, 5);
    println!("Graph output = {}", result);
    assert_eq!(round(result, 5), -0.32727);
    x1.set(&mut g, 2f32);
    x2.set(&mut g, 3f32);
    x3.set(&mut g, 4f32);
    result = graph.compute(&mut g);
    result = round(result, 5);
    println!("Graph output = {}", result);
    assert_eq!(round(result, 5), -0.56656);
}

#[test]
fn input_test() {
    let mut g = new_graph();
    let x1 = input(&mut g, "x1");
    let x2 = input(&mut g, "x2");
    x1.set(&mut g, 1f32);
    x2.set(&mut g, 2f32);
    assert_eq!(1f32, x1.compute(&mut g));
    assert_eq!(2f32, x2.compute(&mut g));
}

#[test]
fn simple_add_test() {
    let mut g = new_graph();
    let x1 = input(&mut g, "x1");
    let x2 = input(&mut g, "x2");
    let out = node::add(&mut g, x1.node(), x2.node());
    x1.set(&mut g, 1f32);
    x2.set(&mut g, 2f32);
    let res = out.compute(&mut g);
    println!("{}", res);
    assert_eq!(3f32, res);
}

#[test]
fn add_in_add_test() {
    let mut g = new_graph();
    let x1 = input(&mut g, "x1");
    let x2 = input(&mut g, "x2");
    let inner = node::add(&mut g, x1.node(), x2.node());
    let out = node::add(&mut g, x1.node(), inner);
    x1.set(&mut g, 1f32);
    x2.set(&mut g, 2f32);
    let res = out.compute(&mut g);
    println!("{}", res);
    assert_eq!(4f32, res);
}

#[test]
fn simple_mul_test() {
    let mut g = new_graph();
    let x1 = input(&mut g, "x1");
    let x2 = input(&mut g, "x2");
    let out = node::mul(&mut g, x1.node(), x2.node());
    x1.set(&mut g, 4f32);
    x2.set(&mut g, 2f32);
    let res = out.compute(&mut g);
    println!("{}", res);
    assert_eq!(8f32, res);
}

#[test]
fn simple_sin_test() {
    let mut g = new_graph();
    let x1 = input(&mut g, "x1");
    let out = sin(&mut g, x1.node());
    x1.set(&mut g, 4f32);
    let res = out.compute(&mut g);
    println!("{}", res);
    assert_eq!(round(res, 5), -0.7568f32);
}

#[test]
fn simple_pow_test() {
    let mut g = new_graph();
    let x1 = input(&mut g, "x1");
    let degree = 2.5f32;
    let out = pow_f32(&mut g, x1.node(), degree);
    x1.set(&mut g, 4f32);
    let res = out.compute(&mut g);
    println!("{}", res);
    assert_eq!(round(res, 5), 32f32);
}

#[test]
fn traverse_test() {
    let mut g = new_graph();
    let x1 = input(&mut g, "x1");
    let x2 = input(&mut g, "x2");
    let x3 = input(&mut g, "x3");
    let a3 = node::add(&mut g, x2.node(), x3.node());
    let a2 = node::add(&mut g, x2.node(), a3);
    let a1 = node::add(&mut g, x2.node(), a2);
    let graph = node::add(&mut g, x1.node(), a1);
    println!("{:?}", traverse(&g, &graph));
    assert_eq!(valid(&g, graph), false);
    x1.set(&mut g, 1f32);
    x2.set(&mut g, 2f32);
    x3.set(&mut g, 3f32);
    assert_eq!(valid(&g, graph), false);
    graph.compute(&mut g);
    assert_eq!(valid(&g, graph), true);
    println!("{:?}", traverse(&g, &graph));
    x1.set(&mut g, 3f32);
    println!("{:?}", traverse(&g, &graph));
    assert_eq!(valid(&g, graph), false);
}

#[test]
fn add_chain_invalidates_only_the_path() {
    let mut g = new_graph();
    let x1 = input(&mut g, "x1");
    let x2 = input(&mut g, "x2");
    let x3 = input(&mut g, "x3");
    let a3 = node::add(&mut g, x2.node(), x3.node());
    let a2 = node::add(&mut g, x2.node(), a3);
    let a1 = node::add(&mut g, x2.node(), a2);
    let root = node::add(&mut g, x1.node(), a1);
    let all = [x1.node(), x2.node(), x3.node(), a3, a2, a1, root];
    for n in all {
        assert!(!valid(&g, n));
    }
    x1.set(&mut g, 1f32);
    x2.set(&mut g, 2f32);
    x3.set(&mut g, 3f32);
    assert_eq!(root.compute(&mut g), 10f32);
    for n in all {
        assert!(valid(&g, n));
    }
    x1.set(&mut g, 5f32);
    assert!(!valid(&g, root));
    assert!(!valid(&g, x1.node()));
    for n in [x2.node(), x3.node(), a3, a2, a1] {
        assert!(valid(&g, n));
    }
    assert_eq!(root.compute(&mut g), 14f32);
}

#[test]
fn set_clears_dependents_and_keeps_the_rest() {
    let mut g = new_graph();
    let x = input(&mut g, "x");
    let y = input(&mut g, "y");
    let sx = sin(&mut g, x.node());
    let py = pow_f32(&mut g, y.node(), 2f32);
    let sum = node::add(&mut g, sx, py);
    x.set(&mut g, 0f32);
    y.set(&mut g, 3f32);
    assert_eq!(sum.compute(&mut g), 9f32);
    y.set(&mut g, 4f32);
    assert!(valid(&g, x.node()));
    assert!(valid(&g, sx));
    assert!(!valid(&g, y.node()));
    assert!(!valid(&g, py));
    assert!(!valid(&g, sum));
    assert_eq!(sum.compute(&mut g), 16f32);
}

#[test]
fn second_compute_changes_nothing() {
    let mut g = new_graph();
    let x1 = input(&mut g, "x1");
    let x2 = input(&mut g, "x2");
    let x3 = input(&mut g, "x3");
    let graph = sample(&mut g, x1, x2, x3);
    x1.set(&mut g, 1f32);
    x2.set(&mut g, 2f32);
    x3.set(&mut g, 3f32);
    let first = graph.compute(&mut g);
    let before = traverse(&g, &graph);
    let second = graph.compute(&mut g);
    assert_eq!(first, second);
    assert_eq!(before, traverse(&g, &graph));
}

#[test]
fn setting_twice_equals_setting_once() {
    let mut g = new_graph();
    let x1 = input(&mut g, "x1");
    let x2 = input(&mut g, "x2");
    let out = node::mul(&mut g, x1.node(), x2.node());
    x1.set(&mut g, 4f32);
    x2.set(&mut g, 2f32);
    assert_eq!(out.compute(&mut g), 8f32);
    x1.set(&mut g, 7f32);
    x1.set(&mut g, 5f32);
    assert!(!valid(&g, out));
    assert!(valid(&g, x2.node()));
    assert_eq!(out.compute(&mut g), 10f32);
}

#[test]
fn invalidating_an_empty_node_changes_nothing() {
    let mut g = new_graph();
    let x1 = input(&mut g, "x1");
    let x2 = input(&mut g, "x2");
    let out = node::add(&mut g, x1.node(), x2.node());
    x2.compute(&mut g);
    let before = traverse(&g, &out);
    g.invalidate(x1.node());
    assert_eq!(before, traverse(&g, &out));
    assert_eq!(before, vec![("add", false), ("x1", false), ("x2", true)]);
}

#[test]
fn traversal_lists_names_and_states_depth_first() {
    let mut g = new_graph();
    let x = input(&mut g, "x");
    let s = sin(&mut g, x.node());
    let out = node::mul(&mut g, s, x.node());
    assert_eq!(
        traverse(&g, &out),
        vec![("mul", false), ("sin", false), ("x", false), ("x", false)]
    );
    x.set(&mut g, 0f32);
    assert_eq!(s.compute(&mut g), 0f32);
    assert_eq!(
        traverse(&g, &out),
        vec![("mul", false), ("sin", true), ("x", true), ("x", true)]
    );
}

#[test]
fn nodes_report_operands_and_kind() {
    let mut g = new_graph();
    let x1 = input(&mut g, "x1");
    let x2 = input(&mut g, "x2");
    let out = node::add(&mut g, x1.node(), x2.node());
    let p = pow_f32(&mut g, out, 2.5f32);
    assert_eq!(g.size(), 4);
    assert_eq!(out.get_node(&g).get_childs(), vec![x1.node(), x2.node()]);
    assert_eq!(p.get_node(&g).get_childs(), vec![out]);
    assert!(x1.node().get_node(&g).get_childs().is_empty());
    assert_eq!(p.get_node(&g).get_name(), "pow_f32");
    assert_eq!(p.get_node(&g).kind, Kind::Unary(UnaryOp::Pow(2.5f32), out.id));
    assert_eq!(x1.node().get_node(&g).parents, vec![out.id]);
    assert_eq!(out.get_node(&g).parents, vec![p.id]);
    assert_eq!(is_valid(Some(1u8)), true);
    assert_eq!(is_valid::<u8>(None), false);
}

#[test]
fn input_keeps_initial_value_until_set() {
    let mut g = new_graph();
    let x = create_input(&mut g, "x", 1.5f32);
    let d = node::add(&mut g, x.node(), x.node());
    assert_eq!(d.compute(&mut g), 3f32);
    assert_eq!(x.node().get_node(&g).parents, vec![d.id, d.id]);
    x.set(&mut g, 2f32);
    assert_eq!(d.compute(&mut g), 4f32);
}
