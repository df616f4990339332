//! The directed acyclic graph underneath a [`crate::graphs::Graph`]: the
//! outside `daggy::Dag` with what this library relies on of it, and the
//! reachability facts that make it acyclic.
use vstd::prelude::*;
use daggy::{Dag, NodeIndex, EdgeIndex, Parents, Walker};
use crate::registry::NodeReflection;
use crate::graphs::EdgeInfo;

verus! {

/// The outside `daggy::Dag` of a graph, with registry nodes as node weights
/// and [`EdgeInfo`] as edge weights. `Dag` cannot be declared as a type of
/// its own here (its index parameter is bounded by an outside trait), so the
/// dag is held as an opaque field and read through the names below.
#[verifier::external_body]
pub struct NodeDag {
    inner: Dag<NodeReflection, EdgeInfo, u32>,
}

/// The node weights of a dag, by node index.
pub uninterp spec fn dag_nodes(d: NodeDag) -> Seq<NodeReflection>;

/// The edges of a dag, by edge index: source, target and weight.
pub uninterp spec fn dag_edges(d: NodeDag) -> Seq<(int, int, EdgeInfo)>;

/// The largest index of the dag's index type, which marks "no index".
pub open spec fn index_end() -> int {
    0xffff_ffff
}

// ----- reachability -----

/// There is an edge from `u` to `v`.
pub open spec fn has_edge(es: Seq<(int, int, EdgeInfo)>, u: int, v: int) -> bool {
    exists|i: int| 0 <= i < es.len() && (#[trigger] es[i]).0 == u && es[i].1 == v
}

/// `p` is a walk along the edges `es`.
pub open spec fn is_walk(es: Seq<(int, int, EdgeInfo)>, p: Seq<int>) -> bool {
    p.len() >= 1 && forall|i: int| 0 <= i < p.len() - 1 ==> #[trigger] has_edge(es, p[i], p[i + 1])
}

/// `y` can be reached from `x` along the edges `es` (in zero or more steps).
pub open spec fn reach(es: Seq<(int, int, EdgeInfo)>, x: int, y: int) -> bool {
    exists|p: Seq<int>| #[trigger] is_walk(es, p) && p[0] == x && p.last() == y
}

/// No walk of one step or more returns to where it started.
pub open spec fn acyclic(es: Seq<(int, int, EdgeInfo)>) -> bool {
    forall|p: Seq<int>| #[trigger] is_walk(es, p) && p.len() >= 2 ==> p[0] != p.last()
}

/// Every edge joins two of the `n` nodes.
pub open spec fn edges_within(es: Seq<(int, int, EdgeInfo)>, n: int) -> bool {
    forall|i: int| 0 <= i < es.len() ==> 0 <= (#[trigger] es[i]).0 < n && 0 <= es[i].1 < n
}

/// The incoming edges of `child` among the first `k` edges, newest first,
/// each as (edge index, source node).
pub open spec fn incoming_upto(es: Seq<(int, int, EdgeInfo)>, child: int, k: int) -> Seq<(int, int)>
    decreases k,
{
    if k <= 0 {
        Seq::empty()
    } else if es[k - 1].1 == child {
        seq![(k - 1, es[k - 1].0)] + incoming_upto(es, child, k - 1)
    } else {
        incoming_upto(es, child, k - 1)
    }
}

/// The incoming edges of `child`, newest first.
pub open spec fn incoming(es: Seq<(int, int, EdgeInfo)>, child: int) -> Seq<(int, int)> {
    incoming_upto(es, child, es.len() as int)
}

/// The nodes among `0..n` from which `x` can be reached.
pub open spec fn ancestors(es: Seq<(int, int, EdgeInfo)>, n: int, x: int) -> Set<int> {
    Set::new(|y: int| 0 <= y < n && reach(es, y, x))
}

pub proof fn lemma_incoming_upto(es: Seq<(int, int, EdgeInfo)>, child: int, k: int)
    requires
        0 <= k <= es.len(),
    ensures
        forall|j: int|
            0 <= j < incoming_upto(es, child, k).len() ==> {
                let (e, p) = #[trigger] incoming_upto(es, child, k)[j];
                &&& 0 <= e < k
                &&& es[e].1 == child
                &&& es[e].0 == p
            },
    decreases k,
{
    if k > 0 {
        lemma_incoming_upto(es, child, k - 1);
        let rest = incoming_upto(es, child, k - 1);
        if es[k - 1].1 == child {
            let s = seq![(k - 1, es[k - 1].0)] + rest;
            assert forall|j: int| 0 < j < s.len() implies s[j] == rest[j - 1] by {}
        }
    }
}

/// Each listed incoming edge of `child` is an edge from the listed source.
pub proof fn lemma_incoming(es: Seq<(int, int, EdgeInfo)>, child: int)
    ensures
        forall|j: int|
            0 <= j < incoming(es, child).len() ==> {
                let (e, p) = #[trigger] incoming(es, child)[j];
                &&& 0 <= e < es.len()
                &&& es[e].1 == child
                &&& es[e].0 == p
                &&& has_edge(es, p, child)
            },
{
    lemma_incoming_upto(es, child, es.len() as int);
    assert forall|j: int| 0 <= j < incoming(es, child).len() implies
        has_edge(es, (#[trigger] incoming(es, child)[j]).1, child) by {
        let (e, p) = incoming(es, child)[j];
        assert(es[e].0 == p && es[e].1 == child);
    }
}

pub proof fn lemma_incoming_upto_complete(es: Seq<(int, int, EdgeInfo)>, child: int, k: int)
    requires
        0 <= k <= es.len(),
    ensures
        forall|e: int| 0 <= e < k && (#[trigger] es[e]).1 == child ==>
            exists|j: int| 0 <= j < incoming_upto(es, child, k).len() && (#[trigger] incoming_upto(es, child, k)[j]).0 == e,
    decreases k,
{
    if k > 0 {
        lemma_incoming_upto_complete(es, child, k - 1);
        let rest = incoming_upto(es, child, k - 1);
        let cur = incoming_upto(es, child, k);
        assert forall|e: int| 0 <= e < k && (#[trigger] es[e]).1 == child implies
            exists|j: int| 0 <= j < cur.len() && (#[trigger] cur[j]).0 == e by {
            if es[k - 1].1 == child {
                if e == k - 1 {
                    assert(cur[0].0 == e);
                } else {
                    let j = choose|j: int| 0 <= j < rest.len() && (#[trigger] rest[j]).0 == e;
                    assert(cur[j + 1] == rest[j]);
                }
            } else {
                if e < k - 1 {
                    let j = choose|j: int| 0 <= j < rest.len() && (#[trigger] rest[j]).0 == e;
                    assert(cur[j] == rest[j]);
                }
            }
        }
    }
}

/// Every edge into `child` is listed among its incoming edges.
pub proof fn lemma_incoming_complete(es: Seq<(int, int, EdgeInfo)>, child: int)
    ensures
        forall|e: int| 0 <= e < es.len() && (#[trigger] es[e]).1 == child ==>
            exists|j: int| 0 <= j < incoming(es, child).len() && (#[trigger] incoming(es, child)[j]).0 == e,
{
    lemma_incoming_upto_complete(es, child, es.len() as int);
    let inc = incoming(es, child);
    assert forall|e: int| 0 <= e < es.len() && (#[trigger] es[e]).1 == child implies
        exists|j: int| 0 <= j < inc.len() && (#[trigger] inc[j]).0 == e by {
        let up = incoming_upto(es, child, es.len() as int);
        let j = choose|j: int| 0 <= j < up.len() && (#[trigger] up[j]).0 == e;
        assert(inc[j].0 == e);
    }
}

/// A node that reaches `x` and is not `x` reaches the source of an edge into `x`.
pub proof fn lemma_reach_through_parent(es: Seq<(int, int, EdgeInfo)>, z: int, x: int)
    requires
        reach(es, z, x),
        z != x,
    ensures
        exists|e: int| 0 <= e < es.len() && (#[trigger] es[e]).1 == x && reach(es, z, es[e].0),
{
    let p = choose|p: Seq<int>| #[trigger] is_walk(es, p) && p[0] == z && p.last() == x;
    let m = p.len() - 2;
    assert(has_edge(es, p[m], p[m + 1]));
    let e = choose|i: int| 0 <= i < es.len() && (#[trigger] es[i]).0 == p[m] && es[i].1 == p[m + 1];
    let q = p.drop_last();
    assert forall|i: int| 0 <= i < q.len() - 1 implies #[trigger] has_edge(es, q[i], q[i + 1]) by {
        assert(q[i] == p[i] && q[i + 1] == p[i + 1]);
    }
    assert(is_walk(es, q));
    assert(reach(es, z, es[e].0));
}

pub proof fn lemma_reach_refl(es: Seq<(int, int, EdgeInfo)>, x: int)
    ensures
        reach(es, x, x),
{
    let p = seq![x];
    assert(is_walk(es, p));
}

pub proof fn lemma_reach_prepend(es: Seq<(int, int, EdgeInfo)>, x: int, y: int, z: int)
    requires
        has_edge(es, x, y),
        reach(es, y, z),
    ensures
        reach(es, x, z),
{
    let p = choose|p: Seq<int>| #[trigger] is_walk(es, p) && p[0] == y && p.last() == z;
    let q = seq![x] + p;
    assert forall|i: int| 0 <= i < q.len() - 1 implies #[trigger] has_edge(es, q[i], q[i + 1]) by {
        if i > 0 {
            assert(q[i] == p[i - 1] && q[i + 1] == p[i]);
            assert(has_edge(es, p[i - 1], p[(i - 1) + 1]));
        }
    }
    assert(is_walk(es, q));
}

pub proof fn lemma_reach_append(es: Seq<(int, int, EdgeInfo)>, x: int, y: int, z: int)
    requires
        reach(es, x, y),
        has_edge(es, y, z),
    ensures
        reach(es, x, z),
{
    let p = choose|p: Seq<int>| #[trigger] is_walk(es, p) && p[0] == x && p.last() == y;
    let q = p.push(z);
    assert forall|i: int| 0 <= i < q.len() - 1 implies #[trigger] has_edge(es, q[i], q[i + 1]) by {
        if i < p.len() - 1 {
            assert(q[i] == p[i] && q[i + 1] == p[i + 1]);
        } else {
            assert(q[i] == y && q[i + 1] == z);
        }
    }
    assert(is_walk(es, q));
}

pub proof fn lemma_reach_trans(es: Seq<(int, int, EdgeInfo)>, x: int, y: int, z: int)
    requires
        reach(es, x, y),
        reach(es, y, z),
    ensures
        reach(es, x, z),
{
    let p1 = choose|p: Seq<int>| #[trigger] is_walk(es, p) && p[0] == x && p.last() == y;
    let p2 = choose|p: Seq<int>| #[trigger] is_walk(es, p) && p[0] == y && p.last() == z;
    let q = p1 + p2.drop_first();
    assert forall|i: int| 0 <= i < q.len() - 1 implies #[trigger] has_edge(es, q[i], q[i + 1]) by {
        if i < p1.len() - 1 {
            assert(q[i] == p1[i] && q[i + 1] == p1[i + 1]);
        } else if i == p1.len() - 1 {
            assert(q[i] == y);
            assert(q[i + 1] == p2[1]);
            assert(has_edge(es, p2[0], p2[0int + 1]));
        } else {
            let k = i - p1.len() + 1;
            assert(q[i] == p2[k] && q[i + 1] == p2[k + 1]);
        }
    }
    if p2.len() == 1 {
        assert(q =~= p1);
    }
    assert(is_walk(es, q));
}

/// An edge of `es` is still an edge once another edge is added.
pub proof fn lemma_has_edge_push(es: Seq<(int, int, EdgeInfo)>, w: (int, int, EdgeInfo), u: int, v: int)
    ensures
        has_edge(es, u, v) ==> has_edge(es.push(w), u, v),
        has_edge(es.push(w), u, v) ==> has_edge(es, u, v) || (u == w.0 && v == w.1),
{
    if has_edge(es, u, v) {
        let i = choose|i: int| 0 <= i < es.len() && (#[trigger] es[i]).0 == u && es[i].1 == v;
        assert(es.push(w)[i] == es[i]);
    }
    if has_edge(es.push(w), u, v) {
        let i = choose|i: int| 0 <= i < es.push(w).len() && (#[trigger] es.push(w)[i]).0 == u && es.push(w)[i].1 == v;
        if i < es.len() {
            assert(es.push(w)[i] == es[i]);
        }
    }
}

/// A walk along `es` plus the edge `w` either stays on `es`, or reaches
/// `w`'s source from its start along `es` and its end from `w`'s target.
pub proof fn lemma_walk_with_new_edge(es: Seq<(int, int, EdgeInfo)>, w: (int, int, EdgeInfo), p: Seq<int>)
    requires
        is_walk(es.push(w), p),
    ensures
        is_walk(es, p) || (reach(es, p[0], w.0) && reach(es, w.1, p.last())),
    decreases p.len(),
{
    let es2 = es.push(w);
    if p.len() == 1 {
        assert(is_walk(es, p));
    } else {
        let tail = p.drop_first();
        assert forall|i: int| 0 <= i < tail.len() - 1 implies #[trigger] has_edge(es2, tail[i], tail[i + 1]) by {
            assert(tail[i] == p[i + 1] && tail[i + 1] == p[i + 2]);
            assert(has_edge(es2, p[i + 1], p[(i + 1) + 1]));
        }
        assert(is_walk(es2, tail));
        lemma_walk_with_new_edge(es, w, tail);
        assert(has_edge(es2, p[0], p[0int + 1]));
        lemma_has_edge_push(es, w, p[0], p[1]);
        if is_walk(es, tail) {
            if has_edge(es, p[0], p[1]) {
                assert forall|i: int| 0 <= i < p.len() - 1 implies #[trigger] has_edge(es, p[i], p[i + 1]) by {
                    if i > 0 {
                        assert(tail[i - 1] == p[i] && tail[(i - 1) + 1] == p[i + 1]);
                    }
                }
                assert(is_walk(es, p));
            } else {
                lemma_reach_refl(es, p[0]);
                assert(tail[0] == w.1 && tail.last() == p.last());
            }
        } else {
            if has_edge(es, p[0], p[1]) {
                lemma_reach_prepend(es, p[0], p[1], w.0);
            } else {
                lemma_reach_refl(es, p[0]);
            }
        }
    }
}

/// Adding an edge from `a` to `b` keeps a graph acyclic when `a` cannot be
/// reached from `b`.
pub proof fn lemma_acyclic_push(es: Seq<(int, int, EdgeInfo)>, w: (int, int, EdgeInfo))
    requires
        acyclic(es),
        !reach(es, w.1, w.0),
    ensures
        acyclic(es.push(w)),
{
    assert forall|p: Seq<int>| #[trigger] is_walk(es.push(w), p) && p.len() >= 2 implies p[0] != p.last() by {
        lemma_walk_with_new_edge(es, w, p);
        if !is_walk(es, p) && p[0] == p.last() {
            lemma_reach_trans(es, w.1, p[0], w.0);
        }
    }
}

/// A graph without edges is acyclic.
pub proof fn lemma_acyclic_empty(es: Seq<(int, int, EdgeInfo)>)
    requires
        es.len() == 0,
    ensures
        acyclic(es),
        forall|n: int| edges_within(es, n),
{
    assert forall|p: Seq<int>| #[trigger] is_walk(es, p) && p.len() >= 2 implies p[0] != p.last() by {
        assert(has_edge(es, p[0], p[0int + 1]));
    }
}

/// Adding an edge keeps every edge between the nodes it already joined.
pub proof fn lemma_edges_within_push(es: Seq<(int, int, EdgeInfo)>, w: (int, int, EdgeInfo), n: int)
    requires
        edges_within(es, n),
        0 <= w.0 < n,
        0 <= w.1 < n,
    ensures
        edges_within(es.push(w), n),
{
    assert forall|i: int| 0 <= i < es.push(w).len() implies 0 <= (#[trigger] es.push(w)[i]).0 < n
        && 0 <= es.push(w)[i].1 < n by {
        if i < es.len() {
            assert(es.push(w)[i] == es[i]);
        }
    }
}

/// The ancestors of `x` form a finite set.
pub proof fn lemma_ancestors_finite(es: Seq<(int, int, EdgeInfo)>, n: int, x: int)
    requires
        0 <= n,
    ensures
        ancestors(es, n, x).finite(),
        ancestors(es, n, x).subset_of(vstd::set_lib::set_int_range(0, n)),
{
    let r = vstd::set_lib::set_int_range(0, n);
    vstd::set_lib::lemma_int_range(0, n);
    assert(ancestors(es, n, x).subset_of(r));
    vstd::set_lib::lemma_len_subset(ancestors(es, n, x), r);
    assert(ancestors(es, n, x) =~= ancestors(es, n, x).intersect(r));
}

/// In an acyclic graph a parent has fewer ancestors than its child.
pub proof fn lemma_parent_fewer_ancestors(es: Seq<(int, int, EdgeInfo)>, n: int, p: int, x: int)
    requires
        acyclic(es),
        has_edge(es, p, x),
        0 <= x < n,
    ensures
        ancestors(es, n, p).len() < ancestors(es, n, x).len(),
{
    lemma_ancestors_finite(es, n, x);
    lemma_ancestors_finite(es, n, p);
    let ap = ancestors(es, n, p);
    let ax = ancestors(es, n, x);
    assert forall|y: int| ap.contains(y) implies ax.remove(x).contains(y) by {
        lemma_reach_append(es, y, p, x);
        if y == x {
            let q = choose|q: Seq<int>| #[trigger] is_walk(es, q) && q[0] == x && q.last() == p;
            let c = q.push(x);
            assert forall|i: int| 0 <= i < c.len() - 1 implies #[trigger] has_edge(es, c[i], c[i + 1]) by {
                if i < q.len() - 1 {
                    assert(c[i] == q[i] && c[i + 1] == q[i + 1]);
                } else {
                    assert(c[i] == p && c[i + 1] == x);
                }
            }
            assert(is_walk(es, c) && c.len() >= 2);
        }
    }
    lemma_reach_refl(es, x);
    assert(ax.contains(x));
    vstd::set_lib::lemma_len_subset(ap, ax.remove(x));
}

// ----- the outside dag -----

/// Calls `daggy::Dag::new`: the new dag has no nodes and no edges.
#[verifier::external_body]
pub(crate) fn dag_new() -> (d: NodeDag)
    ensures
        dag_nodes(d) == Seq::<NodeReflection>::empty(),
        dag_edges(d) == Seq::<(int, int, EdgeInfo)>::empty(),
{
    NodeDag { inner: Dag::new() }
}

/// Calls `daggy::Dag::add_node`: the weight is appended as a new node, whose
/// index is the former node count. The dag panics when its `u32` indices are
/// exhausted, which `requires` rules out.
#[verifier::external_body]
pub(crate) fn dag_add_node(d: &mut NodeDag, w: NodeReflection) -> (idx: usize)
    requires
        dag_nodes(*old(d)).len() < index_end(),
    ensures
        dag_nodes(*final(d)) == dag_nodes(*old(d)).push(w),
        dag_edges(*final(d)) == dag_edges(*old(d)),
        idx == dag_nodes(*old(d)).len(),
{
    d.inner.add_node(w).index()
}

/// Calls `daggy::Dag::add_edge` from node `a` to node `b`. In an acyclic
/// dag (which `daggy` keeps), the edge is refused, and its weight handed
/// back, exactly when `a` can be reached from `b` (`a == b` included);
/// otherwise it is appended and its index, the former edge count, returned.
/// The dag panics on a node that does not exist, and, when it adds the
/// edge, once its `u32` edge indices are exhausted; `requires` rules both
/// out.
#[verifier::external_body]
pub(crate) fn dag_add_edge(d: &mut NodeDag, a: usize, b: usize, w: EdgeInfo) -> (r: Result<usize, EdgeInfo>)
    requires
        a < dag_nodes(*old(d)).len(),
        b < dag_nodes(*old(d)).len(),
        !reach(dag_edges(*old(d)), b as int, a as int) ==> dag_edges(*old(d)).len() < index_end(),
        acyclic(dag_edges(*old(d))),
    ensures
        dag_nodes(*final(d)) == dag_nodes(*old(d)),
        match r {
            Ok(e) => {
                &&& !reach(dag_edges(*old(d)), b as int, a as int)
                &&& e == dag_edges(*old(d)).len()
                &&& dag_edges(*final(d)) == dag_edges(*old(d)).push((a as int, b as int, w))
            },
            Err(back) => {
                &&& reach(dag_edges(*old(d)), b as int, a as int)
                &&& back == w
                &&& dag_edges(*final(d)) == dag_edges(*old(d))
            },
        },
{
    match d.inner.add_edge(NodeIndex::new(a), NodeIndex::new(b), w) {
        Ok(e) => Ok(e.index()),
        Err(cycle) => Err(cycle.0),
    }
}

/// A `daggy::Parents` walker over the incoming edges of one node, held as an
/// opaque field like the dag itself (its type carries the same bounded
/// index parameter).
#[verifier::external_body]
pub struct ParentWalk {
    inner: Parents<NodeReflection, EdgeInfo, u32>,
}

/// What a parents walker has still to yield on a dag, in order: edge index
/// and source node of each remaining incoming edge.
pub uninterp spec fn walk_rest(w: ParentWalk, d: NodeDag) -> Seq<(int, int)>;

/// Calls `daggy::Dag::parents`: a walker that yields every incoming edge of
/// `child`, most recently added first (each new edge goes to the head of
/// its target's incoming list).
#[verifier::external_body]
pub(crate) fn dag_parents(d: &NodeDag, child: usize) -> (w: ParentWalk)
    requires
        child < dag_nodes(*d).len(),
    ensures
        walk_rest(w, *d) == incoming(dag_edges(*d), child as int),
{
    ParentWalk { inner: d.inner.parents(NodeIndex::new(child)) }
}

/// Calls `daggy::Walker::walk_next` of a parents walker on the dag it was
/// made from: the next incoming edge with its source, or `None` once every
/// one has been yielded.
#[verifier::external_body]
pub(crate) fn dag_walk_next(w: &mut ParentWalk, d: &NodeDag) -> (r: Option<(usize, usize)>)
    ensures
        walk_rest(*old(w), *d).len() == 0 ==> r is None && walk_rest(*final(w), *d).len() == 0,
        walk_rest(*old(w), *d).len() > 0 ==> {
            &&& r matches Some((e, p)) && e as int == walk_rest(*old(w), *d)[0].0
                && p as int == walk_rest(*old(w), *d)[0].1
            &&& walk_rest(*final(w), *d) == walk_rest(*old(w), *d).drop_first()
        },
{
    match w.inner.walk_next(&d.inner) {
        Some((e, n)) => Some((e.index(), n.index())),
        None => None,
    }
}

/// Every incoming edge of `child` with its source node, the most recently
/// added edge first.
pub(crate) fn parent_list(d: &NodeDag, child: usize) -> (r: Vec<(usize, usize)>)
    requires
        child < dag_nodes(*d).len(),
    ensures
        r@.len() == incoming(dag_edges(*d), child as int).len(),
        forall|i: int| 0 <= i < r@.len() ==>
            (#[trigger] r@[i]).0 as int == incoming(dag_edges(*d), child as int)[i].0
                && r@[i].1 as int == incoming(dag_edges(*d), child as int)[i].1,
{
    let ghost all = incoming(dag_edges(*d), child as int);
    let mut walk = dag_parents(d, child);
    let mut out: Vec<(usize, usize)> = Vec::new();
    loop
        invariant
            out@.len() + walk_rest(walk, *d).len() == all.len(),
            walk_rest(walk, *d) == all.skip(out@.len() as int),
            forall|i: int| 0 <= i < out@.len() ==>
                (#[trigger] out@[i]).0 as int == all[i].0 && out@[i].1 as int == all[i].1,
        ensures
            walk_rest(walk, *d).len() == 0,
        decreases walk_rest(walk, *d).len(),
    {
        let ghost before = walk_rest(walk, *d);
        match dag_walk_next(&mut walk, d) {
            Some(pair) => {
                proof {
                    assert(all[out@.len() as int] == before[0]);
                    assert(all.skip(out@.len() as int + 1) =~= before.drop_first());
                }
                out.push(pair);
            },
            None => {
                break;
            },
        }
    }
    out
}

/// Calls `daggy::Dag::node_weight`: the weight of node `i`, if it exists.
#[verifier::external_body]
pub(crate) fn dag_node_weight(d: &NodeDag, i: usize) -> (r: Option<NodeReflection>)
    requires
        i <= index_end(),
    ensures
        i < dag_nodes(*d).len() ==> r == Some(dag_nodes(*d)[i as int]),
        i >= dag_nodes(*d).len() ==> r is None,
{
    d.inner.node_weight(NodeIndex::new(i)).copied()
}

/// Calls `daggy::Dag::edge_weight`: the weight of edge `i`, if it exists.
#[verifier::external_body]
pub(crate) fn dag_edge_weight(d: &NodeDag, i: usize) -> (r: Option<EdgeInfo>)
    requires
        i <= index_end(),
    ensures
        i < dag_edges(*d).len() ==> r == Some(dag_edges(*d)[i as int].2),
        i >= dag_edges(*d).len() ==> r is None,
{
    d.inner.edge_weight(EdgeIndex::new(i)).copied()
}

/// Calls `daggy::Dag::node_count`.
#[verifier::external_body]
pub(crate) fn dag_node_count(d: &NodeDag) -> (r: usize)
    ensures
        r == dag_nodes(*d).len(),
{
    d.inner.node_count()
}

/// Calls `daggy::Dag::edge_count`.
#[verifier::external_body]
pub(crate) fn dag_edge_count(d: &NodeDag) -> (r: usize)
    ensures
        r == dag_edges(*d).len(),
{
    d.inner.edge_count()
}

/// Reads edge `i` of `daggy::Dag::raw_edges`: its source, target and weight.
#[verifier::external_body]
pub(crate) fn dag_raw_edge(d: &NodeDag, i: usize) -> (r: (usize, usize, EdgeInfo))
    requires
        i < dag_edges(*d).len(),
    ensures
        r.0 as int == dag_edges(*d)[i as int].0,
        r.1 as int == dag_edges(*d)[i as int].1,
        r.2 == dag_edges(*d)[i as int].2,
{
    let e = &d.inner.raw_edges()[i];
    (e.source().index(), e.target().index(), e.weight)
}

} // verus!
