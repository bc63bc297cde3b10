use vstd::prelude::*;

use crate::node::Node;

verus! {

/// A function of one operand.
#[derive(Clone, Copy, PartialEq, Eq, Debug)]
pub enum UnaryOp<V> {
    Sin,
    /// Raise the operand to the given degree.
    Pow(V),
}

/// A function of two operands.
#[derive(Clone, Copy, PartialEq, Eq, Debug)]
pub enum BinaryOp {
    Add,
    Mul,
}

/// What a node computes. Operands are indices of earlier nodes of the same graph.
#[derive(Clone, Copy, PartialEq, Eq, Debug)]
pub enum Kind<V> {
    /// An input, holding its stored value.
    Input(V),
    Unary(UnaryOp<V>, usize),
    Binary(BinaryOp, usize, usize),
}

/// One vertex of a graph: its label, what it computes, the nodes that use it
/// as an operand, and its memoized value.
pub struct NodeImpl<V> {
    pub name: &'static str,
    pub kind: Kind<V>,
    pub parents: Vec<usize>,
    pub cache: Option<V>,
}

/// The operands of a node of this kind, in order.
pub open spec fn children_of<V>(k: Kind<V>) -> Seq<int> {
    match k {
        Kind::Input(_) => Seq::empty(),
        Kind::Unary(_, a) => seq![a as int],
        Kind::Binary(_, a, b) => seq![a as int, b as int],
    }
}

/// `c` is an operand of a node of kind `k`.
pub open spec fn has_child<V>(k: Kind<V>, c: int) -> bool {
    match k {
        Kind::Input(_) => false,
        Kind::Unary(_, a) => a == c,
        Kind::Binary(_, a, b) => a == c || b == c,
    }
}

/// Every operand of a node of kind `k` comes before position `i`.
pub open spec fn children_before<V>(k: Kind<V>, i: int) -> bool {
    match k {
        Kind::Input(_) => true,
        Kind::Unary(_, a) => a < i,
        Kind::Binary(_, a, b) => a < i && b < i,
    }
}

/// The parent list `ps` of node `i` after a node `n` of kind `k` was added.
pub open spec fn registered<V>(ps: Seq<usize>, k: Kind<V>, i: int, n: usize) -> Seq<usize> {
    match k {
        Kind::Input(_) => ps,
        Kind::Unary(_, a) => if a == i { ps.push(n) } else { ps },
        Kind::Binary(_, a, b) => {
            let once = if a == i { ps.push(n) } else { ps };
            if b == i { once.push(n) } else { once }
        },
    }
}

impl<V: Copy> NodeImpl<V> {
    /// A node with no parents and an empty cache.
    pub fn new(name: &'static str, kind: Kind<V>) -> (r: NodeImpl<V>)
        ensures
            r.name == name,
            r.kind == kind,
            r.parents@ == Seq::<usize>::empty(),
            r.cache is None,
    {
        NodeImpl { name, kind, parents: Vec::new(), cache: None }
    }

    pub fn get_name(&self) -> (r: &'static str)
        ensures
            r == self.name,
    {
        self.name
    }

    pub fn get_cache(&self) -> (r: Option<V>)
        ensures
            r == self.cache,
    {
        self.cache
    }

    /// The operands of this node, in order.
    pub fn get_childs(&self) -> (r: Vec<Node>)
        ensures
            r@.len() == children_of(self.kind).len(),
            forall|j: int| 0 <= j < r@.len() ==> r@[j].id == children_of(self.kind)[j],
    {
        let mut r: Vec<Node> = Vec::new();
        match self.kind {
            Kind::Input(_) => {},
            Kind::Unary(_, a) => {
                r.push(Node::new(a));
            },
            Kind::Binary(_, a, b) => {
                r.push(Node::new(a));
                r.push(Node::new(b));
            },
        }
        r
    }
}

/// What `f` gives on `op` and `x`.
pub open spec fn unary_value<V, U: Fn(UnaryOp<V>, V) -> V>(f: U, op: UnaryOp<V>, x: V) -> V {
    choose|r: V| f.ensures((op, x), r)
}

/// What `f` gives on `op`, `x` and `y`.
pub open spec fn binary_value<V, B: Fn(BinaryOp, V, V) -> V>(
    f: B,
    op: BinaryOp,
    x: V,
    y: V,
) -> V {
    choose|r: V| f.ensures((op, x, y), r)
}

/// `f` accepts every argument and gives one result for each.
pub open spec fn unary_is_pure<V, U: Fn(UnaryOp<V>, V) -> V>(f: U) -> bool {
    &&& forall|op: UnaryOp<V>, x: V| #[trigger] f.requires((op, x))
    &&& forall|op: UnaryOp<V>, x: V, r: V, s: V|
        #[trigger] f.ensures((op, x), r) && #[trigger] f.ensures((op, x), s) ==> r == s
}

/// `f` accepts every argument and gives one result for each.
pub open spec fn binary_is_pure<V, B: Fn(BinaryOp, V, V) -> V>(f: B) -> bool {
    &&& forall|op: BinaryOp, x: V, y: V| #[trigger] f.requires((op, x, y))
    &&& forall|op: BinaryOp, x: V, y: V, r: V, s: V|
        #[trigger] f.ensures((op, x, y), r) && #[trigger] f.ensures((op, x, y), s) ==> r == s
}

/// A graph of nodes held in creation order: a node's operands always come
/// before it, so the graph has no cycle. `unary` and `binary` evaluate the
/// functions that the nodes apply.
pub struct ComputeGraph<V, U, B> {
    nodes: Vec<NodeImpl<V>>,
    unary: U,
    binary: B,
}

impl<V: Copy, U: Fn(UnaryOp<V>, V) -> V, B: Fn(BinaryOp, V, V) -> V> ComputeGraph<V, U, B> {
    /// The nodes, in creation order.
    pub closed spec fn spec_nodes(&self) -> Seq<NodeImpl<V>> {
        self.nodes@
    }

    /// The function that evaluates unary nodes.
    pub closed spec fn unary_fn(&self) -> U {
        self.unary
    }

    /// The function that evaluates binary nodes.
    pub closed spec fn binary_fn(&self) -> B {
        self.binary
    }

    pub open spec fn len(&self) -> int {
        self.spec_nodes().len() as int
    }

    pub open spec fn kind(&self, i: int) -> Kind<V> {
        self.spec_nodes()[i].kind
    }

    pub open spec fn name(&self, i: int) -> &'static str {
        self.spec_nodes()[i].name
    }

    pub open spec fn parents(&self, i: int) -> Seq<usize> {
        self.spec_nodes()[i].parents@
    }

    pub open spec fn cache(&self, i: int) -> Option<V> {
        self.spec_nodes()[i].cache
    }

    /// Node `c` is an operand of node `p`.
    pub open spec fn is_child(&self, p: int, c: int) -> bool {
        has_child(self.kind(p), c)
    }

    pub open spec fn is_input(&self, i: int) -> bool {
        0 <= i < self.len() && self.kind(i) is Input
    }

    /// Operands come before the nodes that use them, and the parent lists
    /// hold exactly the nodes that use each node.
    pub open spec fn shape_ok(&self) -> bool {
        &&& self.len() <= usize::MAX
        &&& forall|i: int| 0 <= i < self.len() ==> children_before(#[trigger] self.kind(i), i)
        &&& forall|i: int, k: int|
            0 <= i < self.len() && 0 <= k < self.parents(i).len() ==> {
                let p = #[trigger] self.parents(i)[k] as int;
                &&& p < self.len()
                &&& self.is_child(p, i)
            }
        &&& forall|p: int, c: int|
            0 <= p < self.len() && #[trigger] self.is_child(p, c) ==> self.parents(c).contains(
                p as usize,
            )
    }

    /// The value of node `i`, evaluated directly from the inputs.
    pub open spec fn value(&self, i: int) -> V
        decreases i,
    {
        if 0 <= i < self.len() {
            match self.kind(i) {
                Kind::Input(v) => v,
                Kind::Unary(op, a) => if a < i {
                    unary_value(self.unary_fn(), op, self.value(a as int))
                } else {
                    arbitrary()
                },
                Kind::Binary(op, a, b) => if a < i && b < i {
                    binary_value(
                        self.binary_fn(),
                        op,
                        self.value(a as int),
                        self.value(b as int),
                    )
                } else {
                    arbitrary()
                },
            }
        } else {
            arbitrary()
        }
    }

    /// Node `n` reads node `x`, itself or through its operands.
    pub open spec fn depends(&self, n: int, x: int) -> bool
        decreases n,
    {
        if n == x {
            true
        } else if 0 <= n < self.len() {
            match self.kind(n) {
                Kind::Input(_) => false,
                Kind::Unary(_, a) => a < n && self.depends(a as int, x),
                Kind::Binary(_, a, b) => (a < n && self.depends(a as int, x)) || (b < n
                    && self.depends(b as int, x)),
            }
        } else {
            false
        }
    }

    /// The value of node `i` is a result that its function gives on the
    /// values of its operands.
    pub open spec fn evaluated(&self, i: int) -> bool {
        match self.kind(i) {
            Kind::Input(_) => true,
            Kind::Unary(op, a) => self.unary_fn().ensures((op, self.value(a as int)), self.value(i)),
            Kind::Binary(op, a, b) => self.binary_fn().ensures(
                (op, self.value(a as int), self.value(b as int)),
                self.value(i),
            ),
        }
    }

    /// A cached value is the node's value, as its function gave it.
    pub open spec fn caches_sound(&self) -> bool {
        forall|i: int|
            0 <= i < self.len() && (#[trigger] self.cache(i)) is Some ==> self.cache(i) == Some(
                self.value(i),
            ) && self.evaluated(i)
    }

    /// A node with a cached value whose operand has none: that operand comes before `b`.
    pub open spec fn closed_below(&self, b: int) -> bool {
        forall|p: int, c: int|
            0 <= p < self.len() && #[trigger] self.is_child(p, c) && self.cache(p) is Some
                && self.cache(c) is None ==> c < b
    }

    /// The invariant that every operation keeps.
    pub open spec fn wf(&self) -> bool {
        &&& unary_is_pure(self.unary_fn())
        &&& binary_is_pure(self.binary_fn())
        &&& self.shape_ok()
        &&& self.caches_sound()
        &&& self.closed_below(0)
    }

    /// Same nodes, same parent lists and same functions; caches may differ.
    pub open spec fn same_shape(&self, o: Self) -> bool {
        &&& self.len() == o.len()
        &&& self.unary_fn() == o.unary_fn()
        &&& self.binary_fn() == o.binary_fn()
        &&& forall|i: int|
            0 <= i < self.len() ==> {
                &&& #[trigger] o.kind(i) == self.kind(i)
                &&& o.name(i) == self.name(i)
                &&& o.parents(i) == self.parents(i)
            }
    }

    /// Same nodes and same caches.
    pub open spec fn same_state(&self, o: Self) -> bool {
        &&& self.same_shape(o)
        &&& forall|i: int| 0 <= i < self.len() ==> #[trigger] o.cache(i) == self.cache(i)
    }

    /// `after` is this graph once node `n` was computed to `r`: the values
    /// of `n` and of every node it reads are cached, and nothing else changed.
    pub open spec fn compute_post(&self, n: int, after: Self, r: V) -> bool {
        &&& after.wf()
        &&& self.same_shape(after)
        &&& r == self.value(n)
        &&& forall|m: int|
            0 <= m < self.len() ==> #[trigger] after.cache(m) == if self.depends(n, m) {
                Some(self.value(m))
            } else {
                self.cache(m)
            }
    }

    /// `after` is this graph once node `x` was invalidated: exactly the nodes
    /// that read `x` lost their cached value.
    pub open spec fn invalidate_post(&self, x: int, after: Self) -> bool {
        &&& self.same_shape(after)
        &&& forall|m: int|
            0 <= m < self.len() ==> #[trigger] after.cache(m) == if self.depends(m, x) {
                None
            } else {
                self.cache(m)
            }
    }

    /// `after` is this graph once input `x` was set to `v`.
    pub open spec fn set_post(&self, x: int, v: V, after: Self) -> bool {
        &&& after.wf()
        &&& after.len() == self.len()
        &&& after.unary_fn() == self.unary_fn()
        &&& after.binary_fn() == self.binary_fn()
        &&& forall|i: int|
            0 <= i < self.len() ==> {
                &&& #[trigger] after.kind(i) == if i == x {
                    Kind::Input(v)
                } else {
                    self.kind(i)
                }
                &&& after.name(i) == self.name(i)
                &&& after.parents(i) == self.parents(i)
            }
        &&& forall|m: int|
            0 <= m < self.len() ==> #[trigger] after.cache(m) == if self.depends(m, x) {
                None
            } else {
                self.cache(m)
            }
    }

    /// `after` is this graph with a node of kind `kind` added at the end,
    /// recorded as a parent of each of its operands.
    pub open spec fn appended(&self, after: Self, name: &'static str, kind: Kind<V>) -> bool {
        let r = self.len();
        &&& after.wf()
        &&& after.len() == r + 1
        &&& after.unary_fn() == self.unary_fn()
        &&& after.binary_fn() == self.binary_fn()
        &&& after.kind(r) == kind
        &&& after.name(r) == name
        &&& after.parents(r) == Seq::<usize>::empty()
        &&& after.cache(r) is None
        &&& forall|i: int|
            0 <= i < r ==> {
                &&& #[trigger] after.kind(i) == self.kind(i)
                &&& after.name(i) == self.name(i)
                &&& after.cache(i) == self.cache(i)
                &&& after.parents(i) == registered(self.parents(i), kind, i, r as usize)
            }
    }

    /// An empty graph whose nodes apply `unary` and `binary`.
    pub fn new(unary: U, binary: B) -> (r: Self)
        requires
            unary_is_pure(unary),
            binary_is_pure(binary),
        ensures
            r.wf(),
            r.len() == 0,
            r.unary_fn() == unary,
            r.binary_fn() == binary,
    {
        ComputeGraph { nodes: Vec::new(), unary, binary }
    }

    /// The number of nodes.
    pub fn size(&self) -> (r: usize)
        ensures
            r == self.len(),
    {
        self.nodes.len()
    }

    pub fn get_node(&self, n: Node) -> (r: &NodeImpl<V>)
        requires
            n.id < self.len(),
        ensures
            *r == self.spec_nodes()[n.id as int],
    {
        &self.nodes[n.id]
    }

    /// Fills the cache of node `n` and of every node it reads, and returns
    /// the value of `n`. A node whose cache holds a value is not evaluated
    /// again, nor is anything below it.
    pub fn compute(&mut self, n: Node) -> (r: V)
        requires
            old(self).wf(),
            n.id < old(self).len(),
        ensures
            old(self).compute_post(n.id as int, *final(self), r),
    {
        self.compute_node(n.id)
    }

    fn compute_node(&mut self, n: usize) -> (r: V)
        requires
            old(self).wf(),
            n < old(self).len(),
        ensures
            old(self).compute_post(n as int, *final(self), r),
        decreases n,
    {
        if let Some(v) = self.nodes[n].cache {
            proof {
                assert forall|m: int| 0 <= m < self.len() implies #[trigger] self.cache(m) == if self.depends(n as int, m) {
                    Some(self.value(m))
                } else {
                    self.cache(m)
                } by {
                    if self.depends(n as int, m) {
                        self.lemma_cached_closure(n as int, m);
                    }
                }
            }
            assert(self.same_shape(*self));
            return v;
        }
        let ghost g0 = *self;
        assert(children_before(g0.kind(n as int), n as int));
        let kind = self.nodes[n].kind;
        let r = match kind {
            Kind::Input(v) => v,
            Kind::Unary(op, a) => {
                let x = self.compute_node(a);
                let r = (self.unary)(op, x);
                proof {
                    g0.lemma_value_prefix(*self, a as int);
                    assert(self.unary.ensures((op, x), r));
                    let s = unary_value(self.unary, op, x);
                    assert(self.unary.ensures((op, x), s));
                    assert(r == s);
                    assert(r == g0.value(n as int));
                    assert(g0.evaluated(n as int));
                    assert(g0.evaluated(n as int));
                }
                r
            },
            Kind::Binary(op, a, b) => {
                let x = self.compute_node(a);
                let ghost g1 = *self;
                proof {
                    assert forall|j: int| 0 <= j < g0.len() implies #[trigger] g1.kind(j) == g0.kind(j) by {}
                    g0.lemma_depends_links(g1, b as int, b as int);
                }
                let y = self.compute_node(b);
                let r = (self.binary)(op, x, y);
                proof {
                    g0.lemma_value_prefix(*self, a as int);
                    g0.lemma_value_prefix(*self, b as int);
                    g0.lemma_value_prefix(g1, a as int);
                    g0.lemma_value_prefix(g1, b as int);
                    assert(self.binary.ensures((op, x, y), r));
                    let s = binary_value(self.binary, op, x, y);
                    assert(self.binary.ensures((op, x, y), s));
                    assert(r == s);
                    assert(r == g0.value(n as int));
                    assert(g0.evaluated(n as int));
                    assert forall|m: int| 0 <= m < g0.len() implies #[trigger] self.cache(m) == if g0.depends(a as int, m) || g0.depends(b as int, m) {
                        Some(g0.value(m))
                    } else {
                        g0.cache(m)
                    } by {
                        g0.lemma_depends_links(g1, b as int, m);
                        if g1.depends(b as int, m) {
                            g0.lemma_depends_order(b as int, m);
                            g0.lemma_value_prefix(g1, m);
                        }
                    }
                }
                r
            },
        };
        let ghost g2 = *self;
        proof {
            assert forall|j: int| 0 <= j < g0.len() implies #[trigger] g2.kind(j) == g0.kind(j) by {}
            assert forall|m: int| 0 <= m < g0.len() && m != n implies #[trigger] g2.cache(m) == if g0.depends(n as int, m) {
                Some(g0.value(m))
            } else {
                g0.cache(m)
            } by {}
            // n reads none of its operands' results back
            match kind {
                Kind::Input(_) => {},
                Kind::Unary(_, a) => {
                    if g0.depends(a as int, n as int) {
                        g0.lemma_depends_order(a as int, n as int);
                    }
                },
                Kind::Binary(_, a, b) => {
                    if g0.depends(a as int, n as int) {
                        g0.lemma_depends_order(a as int, n as int);
                    }
                    if g0.depends(b as int, n as int) {
                        g0.lemma_depends_order(b as int, n as int);
                    }
                },
            }
            assert(g2.cache(n as int) is None);
        }
        self.nodes[n].cache = Some(r);
        proof {
            assert forall|i: int| 0 <= i < g0.len() implies #[trigger] self.kind(i) == g0.kind(i)
                && self.name(i) == g0.name(i) && self.parents(i) == g0.parents(i) && (i != n
                ==> self.cache(i) == g2.cache(i)) by {
                assert(g2.kind(i) == g0.kind(i));
            }
            g0.lemma_value_prefix(*self, n as int);
            g0.lemma_fill(g2, *self, n as int);
            assert(self.wf());
            assert(g0.same_shape(*self));
            assert(r == g0.value(n as int));
            assert forall|m: int| 0 <= m < g0.len() implies #[trigger] self.cache(m) == if g0.depends(n as int, m) {
                Some(g0.value(m))
            } else {
                g0.cache(m)
            } by {
                if m != n {
                    assert(g2.cache(m) == self.cache(m));
                }
            }
        }
        r
    }

    /// Empties the cache of node `n` and of every node that reads it. An
    /// empty cache stops the walk: nothing above it holds a value.
    pub fn invalidate(&mut self, n: Node)
        requires
            old(self).wf(),
            n.id < old(self).len(),
        ensures
            final(self).wf(),
            old(self).invalidate_post(n.id as int, *final(self)),
    {
        self.invalidate_from(n.id);
        proof {
            let g0 = *old(self);
            assert forall|i: int| 0 <= i < g0.len() implies #[trigger] self.parents(i) == g0.parents(i) by {
                assert(self.kind(i) == g0.kind(i));
            }
            g0.lemma_clear_closed(*self, n.id as int, 0);
            g0.lemma_shape_links(*self);
            assert forall|i: int| 0 <= i < self.len() && (#[trigger] self.cache(i)) is Some implies self.cache(i) == Some(self.value(i)) && self.evaluated(i) by {
                g0.lemma_value_prefix(*self, i);
                g0.lemma_evaluated_prefix(*self, i);
            }
        }
    }

    /// Gives input `x` the value `v`, then invalidates it.
    pub(crate) fn set_input(&mut self, x: usize, v: V)
        requires
            old(self).wf(),
            old(self).is_input(x as int),
        ensures
            old(self).set_post(x as int, v, *final(self)),
    {
        let ghost g0 = *self;
        self.nodes[x].kind = Kind::Input(v);
        let ghost g1 = *self;
        proof {
            assert forall|i: int| 0 <= i < g0.len() implies #[trigger] g1.kind(i) == (if i == x {
                Kind::Input(v)
            } else {
                g0.kind(i)
            }) && g1.name(i) == g0.name(i) && g1.parents(i) == g0.parents(i) && g1.cache(i)
                == g0.cache(i) by {}
            g0.lemma_shape_links(g1);
        }
        self.invalidate_from(x);
        proof {
            assert forall|i: int| 0 <= i < g0.len() implies #[trigger] self.parents(i) == g1.parents(i) by {
                assert(self.kind(i) == g1.kind(i));
            }
            assert forall|m: int| 0 <= m < g0.len() implies #[trigger] self.cache(m) == if g0.depends(m, x as int) {
                None
            } else {
                g0.cache(m)
            } by {
                g0.lemma_depends_links(g1, m, x as int);
            }
            g0.lemma_clear_closed(*self, x as int, 0);
            g1.lemma_shape_links(*self);
            assert forall|i: int| 0 <= i < self.len() && (#[trigger] self.cache(i)) is Some implies self.cache(i) == Some(self.value(i)) && self.evaluated(i) by {
                g0.lemma_value_except(*self, x as int, i);
                g0.lemma_evaluated_except(*self, x as int, i);
            }
        }
    }

    fn invalidate_from(&mut self, i: usize)
        requires
            old(self).shape_ok(),
            old(self).closed_below(i as int),
            i < old(self).len(),
        ensures
            old(self).invalidate_post(i as int, *final(self)),
        decreases usize::MAX - i,
    {
        let ghost g0 = *self;
        if self.nodes[i].cache.is_none() {
            proof {
                assert forall|m: int| 0 <= m < g0.len() implies #[trigger] g0.cache(m) == if g0.depends(m, i as int) {
                    None
                } else {
                    g0.cache(m)
                } by {
                    if g0.depends(m, i as int) {
                        g0.lemma_blocked(i as int, i as int, m);
                    }
                }
                assert(g0.same_shape(g0));
            }
            return;
        }
        self.nodes[i].cache = None;
        proof {
            assert forall|j: int| 0 <= j < g0.len() implies #[trigger] self.kind(j) == g0.kind(j)
                && self.name(j) == g0.name(j) && self.parents(j) == g0.parents(j) && (j != i
                ==> self.cache(j) == g0.cache(j)) by {}
            g0.lemma_shape_links(*self);
            assert forall|p: int, c: int|
                0 <= p < self.len() && #[trigger] self.is_child(p, c) && self.cache(p) is Some
                    && self.cache(c) is None implies c < i + 1 by {
                assert(g0.is_child(p, c));
            }
        }
        let ghost ps = g0.parents(i as int);
        let count = self.nodes[i].parents.len();
        let mut k: usize = 0;
        while k < count
            invariant
                g0.shape_ok(),
                0 <= i < g0.len(),
                count == ps.len(),
                ps == g0.parents(i as int),
                k <= count,
                g0.same_shape(*self),
                self.shape_ok(),
                self.closed_below(i + 1),
                forall|m: int|
                    0 <= m < g0.len() ==> #[trigger] self.cache(m) == if m == i || g0.depends_any(
                        m,
                        ps.take(k as int),
                    ) {
                        None
                    } else {
                        g0.cache(m)
                    },
            decreases count - k,
        {
            proof {
                assert(self.kind(i as int) == g0.kind(i as int));
            }
            let p = self.nodes[i].parents[k];
            let ghost before = *self;
            proof {
                assert(self.kind(i as int) == g0.kind(i as int));
                assert(self.parents(i as int) == ps);
                assert(p < g0.len() && g0.is_child(p as int, i as int));
                assert(children_before(g0.kind(p as int), p as int));
                assert(i < p);
            }
            self.invalidate_from(p);
            proof {
                assert forall|j: int| 0 <= j < g0.len() implies #[trigger] self.parents(j) == before.parents(j) by {
                    assert(self.kind(j) == before.kind(j));
                }
                assert forall|j: int| 0 <= j < g0.len() implies #[trigger] self.kind(j) == g0.kind(j) by {
                    assert(before.kind(j) == g0.kind(j));
                }
                before.lemma_clear_closed(*self, p as int, i + 1);
                before.lemma_shape_links(*self);
                assert(ps.take(k + 1).drop_last() =~= ps.take(k as int));
                assert forall|m: int| 0 <= m < g0.len() implies #[trigger] self.cache(m) == if m == i || g0.depends_any(
                    m,
                    ps.take(k + 1),
                ) {
                    None
                } else {
                    g0.cache(m)
                } by {
                    g0.lemma_depends_links(before, m, p as int);
                }
            }
            k = k + 1;
        }
        proof {
            assert(ps.take(count as int) =~= ps);
            assert forall|m: int| 0 <= m < g0.len() implies #[trigger] self.cache(m) == if g0.depends(m, i as int) {
                None
            } else {
                g0.cache(m)
            } by {
                g0.lemma_depends_parents(m, i as int);
            }
        }
    }

    /// Appends a node of kind `kind` and records it as a parent of each of
    /// its operands; returns its position.
    pub(crate) fn push_node(&mut self, name: &'static str, kind: Kind<V>) -> (r: usize)
        requires
            old(self).wf(),
            old(self).len() < usize::MAX,
            children_before(kind, old(self).len()),
        ensures
            r == old(self).len(),
            old(self).appended(*final(self), name, kind),
    {
        let ghost g0 = *self;
        let id = self.nodes.len();
        self.nodes.push(NodeImpl::new(name, kind));
        match kind {
            Kind::Input(_) => {},
            Kind::Unary(_, a) => {
                self.nodes[a].parents.push(id);
            },
            Kind::Binary(_, a, b) => {
                self.nodes[a].parents.push(id);
                self.nodes[b].parents.push(id);
            },
        }
        proof {
            assert forall|i: int| 0 <= i < g0.len() implies {
                &&& #[trigger] self.kind(i) == g0.kind(i)
                &&& self.name(i) == g0.name(i)
                &&& self.cache(i) == g0.cache(i)
                &&& self.parents(i) == registered(g0.parents(i), kind, i, id)
            } by {}
            assert(self.kind(id as int) == kind);
            assert(self.parents(id as int) == Seq::<usize>::empty());
            assert forall|i: int| 0 <= i < g0.len() implies #[trigger] self.value(i) == g0.value(i) by {
                g0.lemma_value_prefix(*self, i);
            }
            assert forall|i: int| 0 <= i < self.len() && (#[trigger] self.cache(i)) is Some implies self.evaluated(i) by {
                if i < g0.len() {
                    assert(g0.cache(i) is Some);
                    g0.lemma_evaluated_prefix(*self, i);
                }
            }
            assert forall|i: int| 0 <= i < self.len() implies children_before(#[trigger] self.kind(i), i) by {
                if i < g0.len() {
                    assert(children_before(g0.kind(i), i));
                }
            }
            assert forall|i: int, k: int| 0 <= i < self.len() && 0 <= k < self.parents(i).len() implies {
                let p = #[trigger] self.parents(i)[k] as int;
                &&& p < self.len()
                &&& self.is_child(p, i)
            } by {
                if k < g0.parents(i).len() {
                    let p = g0.parents(i)[k] as int;
                    assert(registered(g0.parents(i), kind, i, id)[k] == g0.parents(i)[k]);
                    assert(p < g0.len() && g0.is_child(p, i));
                } else {
                    assert(self.parents(i)[k] == id);
                }
            }
            assert forall|p: int, c: int| 0 <= p < self.len() && #[trigger] self.is_child(p, c) implies self.parents(c).contains(p as usize) by {
                if p < g0.len() {
                    assert(g0.is_child(p, c));
                    assert(children_before(g0.kind(p), p));
                    assert(g0.parents(c).contains(p as usize));
                    let k = choose|k: int| 0 <= k < g0.parents(c).len() && g0.parents(c)[k] == p as usize;
                    assert(registered(g0.parents(c), kind, c, id)[k] == g0.parents(c)[k]);
                } else {
                    assert(self.parents(c).last() == id);
                }
            }
            assert forall|p: int, c: int|
                0 <= p < self.len() && #[trigger] self.is_child(p, c) && self.cache(p) is Some
                    && self.cache(c) is None implies c < 0 by {
                assert(g0.is_child(p, c));
                assert(children_before(g0.kind(p), p));
            }
        }
        id
    }

    proof fn lemma_fill(self, mid: Self, after: Self, n: int)
        requires
            self.wf(),
            0 <= n < self.len(),
            self.cache(n) is None,
            self.same_shape(mid),
            self.same_shape(after),
            mid.wf(),
            forall|c: int| #[trigger] self.is_child(n, c) ==> mid.cache(c) is Some,
            after.cache(n) == Some(self.value(n)),
            self.evaluated(n),
            forall|m: int| 0 <= m < self.len() && m != n ==> #[trigger] after.cache(m) == mid.cache(m),
        ensures
            after.wf(),
    {
        assert forall|i: int| 0 <= i < self.len() implies #[trigger] after.parents(i) == self.parents(i) by {
            assert(after.kind(i) == self.kind(i));
        }
        self.lemma_shape_links(after);
        assert forall|i: int| 0 <= i < after.len() && (#[trigger] after.cache(i)) is Some implies after.cache(i) == Some(after.value(i)) && after.evaluated(i) by {
            self.lemma_value_prefix(after, i);
            self.lemma_value_prefix(mid, i);
            if i == n {
                self.lemma_evaluated_prefix(after, i);
            } else {
                assert(mid.cache(i) is Some);
                assert forall|j: int| 0 <= j < mid.len() implies #[trigger] after.kind(j) == mid.kind(j) by {
                    assert(after.kind(j) == self.kind(j));
                }
                mid.lemma_evaluated_prefix(after, i);
            }
        }
        assert forall|p: int, c: int|
            0 <= p < after.len() && #[trigger] after.is_child(p, c) && after.cache(p) is Some
                && after.cache(c) is None implies c < 0 by {
            assert(self.is_child(p, c));
            assert(mid.is_child(p, c));
            assert(children_before(self.kind(p), p));
        }
    }

    /// Node `m` reads one of the nodes listed in `ps`.
    pub open spec fn depends_any(&self, m: int, ps: Seq<usize>) -> bool
        decreases ps.len(),
    {
        ps.len() > 0 && (self.depends(m, ps.last() as int) || self.depends_any(m, ps.drop_last()))
    }

    /// Both graphs have the same operands everywhere; they may differ in
    /// the stored values of inputs.
    pub open spec fn same_links(&self, h: Self) -> bool {
        &&& h.len() == self.len()
        &&& forall|j: int|
            0 <= j < self.len() ==> #[trigger] h.kind(j) == self.kind(j) || (h.kind(j) is Input
                && self.kind(j) is Input)
    }

    /// Values depend only on the nodes at or before them.
    pub(crate) proof fn lemma_value_prefix(self, h: Self, i: int)
        requires
            self.unary_fn() == h.unary_fn(),
            self.binary_fn() == h.binary_fn(),
            self.len() <= h.len(),
            forall|j: int| 0 <= j < self.len() ==> #[trigger] h.kind(j) == self.kind(j),
            0 <= i < self.len(),
        ensures
            h.value(i) == self.value(i),
        decreases i,
    {
        match self.kind(i) {
            Kind::Input(_) => {},
            Kind::Unary(_, a) => {
                if a < i {
                    self.lemma_value_prefix(h, a as int);
                }
            },
            Kind::Binary(_, a, b) => {
                if a < i && b < i {
                    self.lemma_value_prefix(h, a as int);
                    self.lemma_value_prefix(h, b as int);
                }
            },
        }
    }

    pub(crate) proof fn lemma_evaluated_prefix(self, h: Self, i: int)
        requires
            self.shape_ok(),
            self.unary_fn() == h.unary_fn(),
            self.binary_fn() == h.binary_fn(),
            self.len() <= h.len(),
            forall|j: int| 0 <= j < self.len() ==> #[trigger] h.kind(j) == self.kind(j),
            0 <= i < self.len(),
            self.evaluated(i),
        ensures
            h.evaluated(i),
    {
        assert(children_before(self.kind(i), i));
        self.lemma_value_prefix(h, i);
        match self.kind(i) {
            Kind::Input(_) => {},
            Kind::Unary(_, a) => {
                self.lemma_value_prefix(h, a as int);
            },
            Kind::Binary(_, a, b) => {
                self.lemma_value_prefix(h, a as int);
                self.lemma_value_prefix(h, b as int);
            },
        }
    }

    proof fn lemma_evaluated_except(self, h: Self, x: int, i: int)
        requires
            self.shape_ok(),
            self.unary_fn() == h.unary_fn(),
            self.binary_fn() == h.binary_fn(),
            self.len() == h.len(),
            forall|j: int| 0 <= j < self.len() && j != x ==> #[trigger] h.kind(j) == self.kind(j),
            0 <= i < self.len(),
            !self.depends(i, x),
            self.evaluated(i),
        ensures
            h.evaluated(i),
    {
        assert(children_before(self.kind(i), i));
        self.lemma_value_except(h, x, i);
        match self.kind(i) {
            Kind::Input(_) => {},
            Kind::Unary(_, a) => {
                self.lemma_value_except(h, x, a as int);
            },
            Kind::Binary(_, a, b) => {
                self.lemma_value_except(h, x, a as int);
                self.lemma_value_except(h, x, b as int);
            },
        }
    }

    pub(crate) proof fn lemma_depends_links(self, h: Self, n: int, x: int)
        requires
            self.same_links(h),
            0 <= n < self.len(),
        ensures
            h.depends(n, x) == self.depends(n, x),
        decreases n,
    {
        assert(h.kind(n) == self.kind(n) || (h.kind(n) is Input && self.kind(n) is Input));
        match self.kind(n) {
            Kind::Input(_) => {},
            Kind::Unary(_, a) => {
                if a < n {
                    self.lemma_depends_links(h, a as int, x);
                }
            },
            Kind::Binary(_, a, b) => {
                if a < n {
                    self.lemma_depends_links(h, a as int, x);
                }
                if b < n {
                    self.lemma_depends_links(h, b as int, x);
                }
            },
        }
    }

    proof fn lemma_shape_links(self, h: Self)
        requires
            self.shape_ok(),
            self.same_links(h),
            forall|i: int| 0 <= i < self.len() ==> #[trigger] h.parents(i) == self.parents(i),
        ensures
            h.shape_ok(),
            forall|p: int, c: int| 0 <= p < self.len() ==> #[trigger] h.is_child(p, c) == self.is_child(p, c),
    {
        assert forall|p: int, c: int| 0 <= p < self.len() implies #[trigger] h.is_child(p, c) == self.is_child(p, c) by {
            assert(h.kind(p) == self.kind(p) || (h.kind(p) is Input && self.kind(p) is Input));
        }
        assert forall|i: int| 0 <= i < h.len() implies children_before(#[trigger] h.kind(i), i) by {
            assert(h.kind(i) == self.kind(i) || (h.kind(i) is Input && self.kind(i) is Input));
            assert(children_before(self.kind(i), i));
        }
        assert forall|i: int, k: int| 0 <= i < h.len() && 0 <= k < h.parents(i).len() implies {
            let p = #[trigger] h.parents(i)[k] as int;
            &&& p < h.len()
            &&& h.is_child(p, i)
        } by {
            assert(h.parents(i) == self.parents(i));
            let p = self.parents(i)[k] as int;
            assert(p < self.len() && self.is_child(p, i));
            assert(h.is_child(p, i) == self.is_child(p, i));
        }
        assert forall|p: int, c: int| 0 <= p < h.len() && #[trigger] h.is_child(p, c) implies h.parents(c).contains(p as usize) by {
            assert(h.is_child(p, c) == self.is_child(p, c));
            assert(children_before(self.kind(p), p));
            assert(0 <= c < self.len());
            assert(h.parents(c) == self.parents(c));
        }
    }

    /// A node reads only nodes at or before it.
    proof fn lemma_depends_order(self, n: int, x: int)
        requires
            self.shape_ok(),
            self.depends(n, x),
        ensures
            x <= n,
        decreases n,
    {
        if n != x {
            match self.kind(n) {
                Kind::Input(_) => {},
                Kind::Unary(_, a) => {
                    self.lemma_depends_order(a as int, x);
                },
                Kind::Binary(_, a, b) => {
                    if a < n && self.depends(a as int, x) {
                        self.lemma_depends_order(a as int, x);
                    } else {
                        self.lemma_depends_order(b as int, x);
                    }
                },
            }
        }
    }

    pub(crate) proof fn lemma_child_depends(self, p: int, c: int, x: int)
        requires
            self.shape_ok(),
            0 <= p < self.len(),
            self.is_child(p, c),
            self.depends(c, x),
        ensures
            self.depends(p, x),
    {
        assert(children_before(self.kind(p), p));
    }

    /// Reading is transitive.
    proof fn lemma_depends_trans(self, m: int, p: int, i: int)
        requires
            self.shape_ok(),
            self.depends(m, p),
            self.depends(p, i),
        ensures
            self.depends(m, i),
        decreases m,
    {
        if m != p {
            match self.kind(m) {
                Kind::Input(_) => {},
                Kind::Unary(_, a) => {
                    self.lemma_depends_trans(a as int, p, i);
                },
                Kind::Binary(_, a, b) => {
                    if a < m && self.depends(a as int, p) {
                        self.lemma_depends_trans(a as int, p, i);
                    } else {
                        self.lemma_depends_trans(b as int, p, i);
                    }
                },
            }
        }
    }

    proof fn lemma_any_intro(self, m: int, ps: Seq<usize>, k: int)
        requires
            0 <= k < ps.len(),
            self.depends(m, ps[k] as int),
        ensures
            self.depends_any(m, ps),
        decreases ps.len(),
    {
        if k != ps.len() - 1 {
            assert(ps.drop_last()[k] == ps[k]);
            self.lemma_any_intro(m, ps.drop_last(), k);
        }
    }

    proof fn lemma_any_elim(self, m: int, ps: Seq<usize>) -> (k: int)
        requires
            self.depends_any(m, ps),
        ensures
            0 <= k < ps.len(),
            self.depends(m, ps[k] as int),
        decreases ps.len(),
    {
        if self.depends(m, ps.last() as int) {
            ps.len() - 1
        } else {
            let k = self.lemma_any_elim(m, ps.drop_last());
            assert(ps.drop_last()[k] == ps[k]);
            k
        }
    }

    /// A node reads `i` exactly when it is `i` or reads a parent of `i`:
    /// the nodes that read `i` are those reached from `i` along parent lists.
    pub proof fn lemma_depends_parents(self, m: int, i: int)
        requires
            self.shape_ok(),
            0 <= i < self.len(),
            0 <= m < self.len(),
        ensures
            self.depends(m, i) == (m == i || self.depends_any(m, self.parents(i))),
        decreases m,
    {
        let ps = self.parents(i);
        if self.depends_any(m, ps) {
            let k = self.lemma_any_elim(m, ps);
            let p = ps[k] as int;
            assert(p < self.len() && self.is_child(p, i));
            self.lemma_child_depends(p, i, i);
            self.lemma_depends_trans(m, p, i);
        }
        if m != i && self.depends(m, i) {
            let a: int = match self.kind(m) {
                Kind::Input(_) => 0,
                Kind::Unary(_, a) => a as int,
                Kind::Binary(_, a, b) => if a < m && self.depends(a as int, i) {
                    a as int
                } else {
                    b as int
                },
            };
            assert(self.is_child(m, a) && a < m && self.depends(a, i));
            if a == i {
                assert(ps.contains(m as usize));
                let k = choose|k: int| 0 <= k < ps.len() && ps[k] == m as usize;
                self.lemma_any_intro(m, ps, k);
            } else {
                self.lemma_depends_parents(a, i);
                let k = self.lemma_any_elim(a, ps);
                self.lemma_child_depends(m, a, ps[k] as int);
                self.lemma_any_intro(m, ps, k);
            }
        }
    }

    /// Below an empty cache, within the bound, no node reading it holds a value.
    pub(crate) proof fn lemma_blocked(self, b: int, j: int, m: int)
        requires
            self.shape_ok(),
            self.closed_below(b),
            b <= j,
            0 <= j < self.len(),
            self.cache(j) is None,
            0 <= m < self.len(),
            self.depends(m, j),
        ensures
            self.cache(m) is None,
        decreases m,
    {
        if m != j && self.cache(m) is Some {
            let a: int = match self.kind(m) {
                Kind::Input(_) => 0,
                Kind::Unary(_, a) => a as int,
                Kind::Binary(_, a, b) => if a < m && self.depends(a as int, j) {
                    a as int
                } else {
                    b as int
                },
            };
            assert(self.is_child(m, a) && a < m && self.depends(a, j));
            self.lemma_depends_order(a, j);
            if self.cache(a) is None {
                assert(a < b);
            } else {
                self.lemma_blocked(b, j, a);
            }
        }
    }

    /// Clearing the caches of every node that reads `x` keeps the bound.
    proof fn lemma_clear_closed(self, h: Self, x: int, b: int)
        requires
            self.shape_ok(),
            self.same_links(h),
            forall|i: int| 0 <= i < self.len() ==> #[trigger] h.parents(i) == self.parents(i),
            self.closed_below(b),
            forall|m: int|
                0 <= m < self.len() ==> #[trigger] h.cache(m) == if self.depends(m, x) {
                    None
                } else {
                    self.cache(m)
                },
        ensures
            h.closed_below(b),
    {
        self.lemma_shape_links(h);
        assert forall|p: int, c: int|
            0 <= p < h.len() && #[trigger] h.is_child(p, c) && h.cache(p) is Some
                && h.cache(c) is None implies c < b by {
            assert(self.is_child(p, c));
            assert(children_before(self.kind(p), p));
            assert(0 <= c < self.len());
            if self.depends(c, x) {
                self.lemma_child_depends(p, c, x);
            }
        }
    }

    /// Below a cached node every node holds its value.
    proof fn lemma_cached_closure(self, n: int, m: int)
        requires
            self.wf(),
            0 <= n < self.len(),
            self.cache(n) is Some,
            self.depends(n, m),
        ensures
            0 <= m < self.len(),
            self.cache(m) == Some(self.value(m)),
        decreases n,
    {
        if n != m {
            let a: int = match self.kind(n) {
                Kind::Input(_) => 0,
                Kind::Unary(_, a) => a as int,
                Kind::Binary(_, a, b) => if a < n && self.depends(a as int, m) {
                    a as int
                } else {
                    b as int
                },
            };
            assert(self.is_child(n, a) && a < n && self.depends(a, m));
            assert(self.cache(a) is Some);
            self.lemma_cached_closure(a, m);
        }
    }

    /// Nodes that do not read `x` keep their value when only `x` changed.
    proof fn lemma_value_except(self, h: Self, x: int, i: int)
        requires
            self.unary_fn() == h.unary_fn(),
            self.binary_fn() == h.binary_fn(),
            self.len() == h.len(),
            forall|j: int| 0 <= j < self.len() && j != x ==> #[trigger] h.kind(j) == self.kind(j),
            0 <= i < self.len(),
            !self.depends(i, x),
        ensures
            h.value(i) == self.value(i),
        decreases i,
    {
        assert(h.kind(i) == self.kind(i));
        match self.kind(i) {
            Kind::Input(_) => {},
            Kind::Unary(_, a) => {
                if a < i {
                    self.lemma_value_except(h, x, a as int);
                }
            },
            Kind::Binary(_, a, b) => {
                if a < i && b < i {
                    self.lemma_value_except(h, x, a as int);
                    self.lemma_value_except(h, x, b as int);
                }
            },
        }
    }
}

} // verus!
