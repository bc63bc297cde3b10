use vstd::prelude::*;

use crate::computational_graph::{BinaryOp, ComputeGraph, Kind, UnaryOp};

verus! {

/// Computing a node twice in a row, with no `set` between, gives the same
/// value twice, and the second computation changes nothing: every value it
/// needs is already cached.
pub proof fn lemma_compute_memoized<
    V: Copy,
    U: Fn(UnaryOp<V>, V) -> V,
    B: Fn(BinaryOp, V, V) -> V,
>(
    g0: ComputeGraph<V, U, B>,
    n: int,
    g1: ComputeGraph<V, U, B>,
    r1: V,
    g2: ComputeGraph<V, U, B>,
    r2: V,
)
    requires
        g0.wf(),
        0 <= n < g0.len(),
        g0.compute_post(n, g1, r1),
        g1.compute_post(n, g2, r2),
    ensures
        r2 == r1,
        g1.same_state(g2),
{
    assert(g0.same_links(g1));
    g0.lemma_value_prefix(g1, n);
    assert forall|m: int| 0 <= m < g1.len() implies #[trigger] g2.cache(m) == g1.cache(m) by {
        g0.lemma_depends_links(g1, n, m);
        if g1.depends(n, m) {
            g0.lemma_value_prefix(g1, m);
        }
    }
}

/// `path` starts at node `x` and each next step is a parent of the node before.
pub open spec fn is_parent_path<
    V: Copy,
    U: Fn(UnaryOp<V>, V) -> V,
    B: Fn(BinaryOp, V, V) -> V,
>(g: ComputeGraph<V, U, B>, x: int, path: Seq<int>) -> bool {
    &&& path.len() > 0
    &&& path[0] == x
    &&& forall|k: int|
        0 < k < path.len() ==> {
            &&& 0 <= path[k - 1] < g.len()
            &&& 0 <= #[trigger] path[k] < g.len()
            &&& g.parents(path[k - 1]).contains(path[k] as usize)
        }
}

/// Node `m` is reached from node `x` along parent lists.
pub open spec fn reaches_up<V: Copy, U: Fn(UnaryOp<V>, V) -> V, B: Fn(BinaryOp, V, V) -> V>(
    g: ComputeGraph<V, U, B>,
    x: int,
    m: int,
) -> bool {
    exists|path: Seq<int>| is_parent_path(g, x, path) && path.last() == m
}

proof fn lemma_path_depends<V: Copy, U: Fn(UnaryOp<V>, V) -> V, B: Fn(BinaryOp, V, V) -> V>(
    g: ComputeGraph<V, U, B>,
    x: int,
    path: Seq<int>,
)
    requires
        g.shape_ok(),
        0 <= x < g.len(),
        is_parent_path(g, x, path),
    ensures
        0 <= path.last() < g.len(),
        g.depends(path.last(), x),
    decreases path.len(),
{
    if path.len() > 1 {
        let prefix = path.drop_last();
        assert forall|k: int| 0 < k < prefix.len() implies {
            &&& 0 <= prefix[k - 1] < g.len()
            &&& 0 <= #[trigger] prefix[k] < g.len()
            &&& g.parents(prefix[k - 1]).contains(prefix[k] as usize)
        } by {
            assert(prefix[k] == path[k]);
            assert(prefix[k - 1] == path[k - 1]);
        }
        assert(prefix[0] == path[0]);
        lemma_path_depends(g, x, prefix);
        let c = path[path.len() - 2];
        let m = path.last();
        assert(0 <= path[path.len() - 1] < g.len());
        let k = choose|k: int| 0 <= k < g.parents(c).len() && g.parents(c)[k] == m as usize;
        assert(g.parents(c)[k] as int == m);
        assert(m < g.len() && g.is_child(m, c));
        g.lemma_child_depends(m, c, x);
    }
}

proof fn lemma_depends_path<V: Copy, U: Fn(UnaryOp<V>, V) -> V, B: Fn(BinaryOp, V, V) -> V>(
    g: ComputeGraph<V, U, B>,
    x: int,
    m: int,
) -> (path: Seq<int>)
    requires
        g.shape_ok(),
        0 <= m < g.len(),
        g.depends(m, x),
    ensures
        is_parent_path(g, x, path),
        path.last() == m,
    decreases m,
{
    if m == x {
        seq![x]
    } else {
        let a: int = match g.kind(m) {
            Kind::Input(_) => 0,
            Kind::Unary(_, a) => a as int,
            Kind::Binary(_, a, b) => if a < m && g.depends(a as int, x) {
                a as int
            } else {
                b as int
            },
        };
        assert(g.is_child(m, a) && a < m && g.depends(a, x));
        let below = lemma_depends_path(g, x, a);
        assert(g.parents(a).contains(m as usize));
        let path = below.push(m);
        assert(path[0] == below[0]);
        assert forall|k: int| 0 < k < path.len() implies {
            &&& 0 <= path[k - 1] < g.len()
            &&& 0 <= #[trigger] path[k] < g.len()
            &&& g.parents(path[k - 1]).contains(path[k] as usize)
        } by {
            if k < below.len() {
                assert(path[k] == below[k] && path[k - 1] == below[k - 1]);
            } else {
                assert(path[k - 1] == below.last() && path[k] == m);
            }
        }
        path
    }
}

/// After `set` on input `x`, every node reached from `x` along parent
/// lists holds no value, and every other node keeps its cache.
pub proof fn lemma_set_invalidates_reachable<
    V: Copy,
    U: Fn(UnaryOp<V>, V) -> V,
    B: Fn(BinaryOp, V, V) -> V,
>(g0: ComputeGraph<V, U, B>, x: int, v: V, g1: ComputeGraph<V, U, B>)
    requires
        g0.wf(),
        g0.is_input(x),
        g0.set_post(x, v, g1),
    ensures
        forall|m: int| 0 <= m < g0.len() && reaches_up(g0, x, m) ==> (#[trigger] g1.cache(m)) is None,
        forall|m: int| 0 <= m < g0.len() && !reaches_up(g0, x, m) ==> #[trigger] g1.cache(m) == g0.cache(m),
{
    assert forall|m: int| 0 <= m < g0.len() implies (reaches_up(g0, x, m) <==> g0.depends(m, x)) by {
        if g0.depends(m, x) {
            let path = lemma_depends_path(g0, x, m);
        }
        if reaches_up(g0, x, m) {
            let path = choose|path: Seq<int>| is_parent_path(g0, x, path) && path.last() == m;
            lemma_path_depends(g0, x, path);
        }
    }
}

/// Invalidating a node whose cache is already empty changes nothing.
pub proof fn lemma_invalidate_empty_is_noop<
    V: Copy,
    U: Fn(UnaryOp<V>, V) -> V,
    B: Fn(BinaryOp, V, V) -> V,
>(g0: ComputeGraph<V, U, B>, n: int, g1: ComputeGraph<V, U, B>)
    requires
        g0.wf(),
        0 <= n < g0.len(),
        g0.cache(n) is None,
        g0.invalidate_post(n, g1),
    ensures
        g0.same_state(g1),
{
    assert forall|m: int| 0 <= m < g0.len() implies #[trigger] g1.cache(m) == g0.cache(m) by {
        if g0.depends(m, n) {
            g0.lemma_blocked(0, n, m);
        }
    }
}

/// Setting an input twice in a row, with no computation between, leaves the
/// graph as setting it once to the second value does.
pub proof fn lemma_set_twice<V: Copy, U: Fn(UnaryOp<V>, V) -> V, B: Fn(BinaryOp, V, V) -> V>(
    g0: ComputeGraph<V, U, B>,
    x: int,
    v1: V,
    v2: V,
    g1: ComputeGraph<V, U, B>,
    g2: ComputeGraph<V, U, B>,
    h: ComputeGraph<V, U, B>,
)
    requires
        g0.wf(),
        g0.is_input(x),
        g0.set_post(x, v1, g1),
        g1.set_post(x, v2, g2),
        g0.set_post(x, v2, h),
    ensures
        h.same_state(g2),
{
    assert(g0.same_links(g1));
    assert forall|i: int| 0 <= i < h.len() implies {
        &&& #[trigger] g2.kind(i) == h.kind(i)
        &&& g2.name(i) == h.name(i)
        &&& g2.parents(i) == h.parents(i)
        &&& g2.cache(i) == h.cache(i)
    } by {
        assert(g1.kind(i) == (if i == x { Kind::Input(v1) } else { g0.kind(i) }));
        g0.lemma_depends_links(g1, i, x);
        assert(g2.kind(i) == (if i == x { Kind::Input(v2) } else { g1.kind(i) }));
        assert(h.kind(i) == (if i == x { Kind::Input(v2) } else { g0.kind(i) }));
    }
    assert(h.same_shape(g2));
    assert forall|i: int| 0 <= i < h.len() implies #[trigger] g2.cache(i) == h.cache(i) by {
        assert(g2.kind(i) == h.kind(i));
    }
}

} // verus!
