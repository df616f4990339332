//! Defines the graph structure that controls execution flow. The graph built
//! will be based on the nodes within a [`crate::registry::Registry`].
//! Multiple graphs can be built from a single registry.
use vstd::prelude::*;
use vstd::std_specs::cmp::PartialEqSpec;
use crate::stage::TypeReflection;
use crate::registry::{NodeId, NodeReflection, same_node, same_node_exec};
use crate::dag::{NodeDag, dag_nodes, dag_edges, index_end, acyclic, edges_within, reach,
    dag_new, dag_add_node, dag_add_edge, lemma_acyclic_push, lemma_edges_within_push,
    dag_node_weight, dag_node_count, dag_edge_count, dag_raw_edge, dag_edge_weight, parent_list, incoming, ancestors,
    lemma_incoming, lemma_incoming_complete, lemma_reach_through_parent, lemma_reach_refl, lemma_reach_append,
    lemma_parent_fewer_ancestors, lemma_ancestors_finite};
use crate::error::{InjectionError, EdgeCreationError, NodesNotFoundError, NodeNotFoundInGraphError, NodeExecutionError,
    EdgeNotFoundInGraphError,
    GraphTrace, NodeInfo, ConnectionInfo, ErrorWithTrace, mark_node, mark_connection};
use crate::stage::{Stage, EvalStrategy, ReevaluationRule, find_named};
use crate::registry::Registry;
use crate::node::{Node, output_position, copy_marks_changed};
use crate::text::base_type;

verus! {

/// Information about connections between nodes: which output of the source
/// feeds which input of the target (`None`: the unnamed output, or no data).
#[derive(Debug, Clone, Copy)]
pub struct EdgeInfo {
    pub source_output: Option<&'static TypeReflection>,
    pub target_input: Option<&'static TypeReflection>,
}

/// Directed Acyclic Graph representing the flow of execution in a
/// pipeline. Only operates on index and edge information - doesn't store
/// actual state.
pub struct Graph {
    dag: NodeDag,
    /// Each registry node of the graph with its current index in the dag.
    node_indices: Vec<(NodeReflection, usize)>,
}

/// The first entry of `map`, from `i` on, whose node is `r`.
pub open spec fn key_position_from(map: Seq<(NodeReflection, usize)>, r: NodeReflection, i: int) -> Option<int>
    decreases map.len() - i,
{
    if i < 0 || i >= map.len() {
        None
    } else if same_node(map[i].0, r) {
        Some(i)
    } else {
        key_position_from(map, r, i + 1)
    }
}

pub proof fn lemma_key_position_from(map: Seq<(NodeReflection, usize)>, r: NodeReflection, i: int)
    requires
        0 <= i <= map.len(),
    ensures
        key_position_from(map, r, i) matches Some(k) ==> i <= k < map.len() && same_node(map[k].0, r),
        key_position_from(map, r, i) is None ==> forall|j: int| i <= j < map.len() ==> !same_node(map[j].0, r),
    decreases map.len() - i,
{
    if i < map.len() {
        lemma_key_position_from(map, r, i + 1);
    }
}

/// Entries for one registry node sit at the same place in `map`.
pub proof fn lemma_key_position_same(map: Seq<(NodeReflection, usize)>, a: NodeReflection, b: NodeReflection, i: int)
    requires
        same_node(a, b),
    ensures
        key_position_from(map, a, i) == key_position_from(map, b, i),
    decreases map.len() - i,
{
    if 0 <= i < map.len() {
        lemma_key_position_same(map, a, b, i + 1);
    }
}

/// Replacing an entry by one for the same registry node moves no entry.
pub proof fn lemma_key_position_update(map: Seq<(NodeReflection, usize)>, k: int, e: (NodeReflection, usize), r: NodeReflection, i: int)
    requires
        0 <= k < map.len(),
        same_node(e.0, map[k].0),
    ensures
        key_position_from(map.update(k, e), r, i) == key_position_from(map, r, i),
    decreases map.len() - i,
{
    if 0 <= i < map.len() {
        lemma_key_position_update(map, k, e, r, i + 1);
    }
}

/// Appending an entry finds it only where no earlier entry matched.
pub proof fn lemma_key_position_push(map: Seq<(NodeReflection, usize)>, e: (NodeReflection, usize), r: NodeReflection, i: int)
    requires
        0 <= i <= map.len(),
    ensures
        key_position_from(map.push(e), r, i) == match key_position_from(map, r, i) {
            Some(q) => Some(q),
            None => if same_node(e.0, r) { Some(map.len() as int) } else { None },
        },
    decreases map.len() - i,
{
    let m2 = map.push(e);
    if i < map.len() {
        assert(m2[i] == map[i]);
        lemma_key_position_push(map, e, r, i + 1);
    } else {
        assert(m2[i] == e);
        assert(key_position_from(m2, r, i + 1) is None);
    }
}

/// The last position before `n` in `ids` of the registry node at `a`.
pub open spec fn last_same(ids: Seq<NodeReflection>, a: int, n: int) -> int
    decreases n,
{
    if n <= 0 {
        -1
    } else if same_node(ids[n - 1], ids[a]) {
        n - 1
    } else {
        last_same(ids, a, n - 1)
    }
}

/// Some entry of `map` is for the registry node `r`.
pub open spec fn has_key(map: Seq<(NodeReflection, usize)>, r: NodeReflection) -> bool {
    exists|k: int| 0 <= k < map.len() && same_node(#[trigger] map[k].0, r)
}

/// The trace entry of the registry node `r`.
pub open spec fn node_info_of<S: Stage>(reg: &Registry<S>, r: NodeReflection) -> NodeInfo {
    NodeInfo {
        id: r,
        name: reg.node(r.id as int).shape.stage_name,
        inputs: reg.node(r.id as int).shape.inputs,
        outputs: reg.node(r.id as int).shape.outputs,
        highlighted: false,
    }
}

/// The trace entries of the first `k` graph nodes that the registry holds.
pub open spec fn trace_nodes_upto<S: Stage>(map: Seq<(NodeReflection, usize)>, reg: &Registry<S>, k: int) -> Seq<NodeInfo>
    decreases k,
{
    if k <= 0 {
        Seq::empty()
    } else if reg.holds(map[k - 1].0.id as int) {
        trace_nodes_upto(map, reg, k - 1).push(node_info_of(reg, map[k - 1].0))
    } else {
        trace_nodes_upto(map, reg, k - 1)
    }
}

/// The registry node whose dag index is `idx`: the first such entry from `i` on.
pub open spec fn node_at_index_from(map: Seq<(NodeReflection, usize)>, idx: int, i: int) -> Option<NodeReflection>
    decreases map.len() - i,
{
    if i < 0 || i >= map.len() {
        None
    } else if map[i].1 == idx {
        Some(map[i].0)
    } else {
        node_at_index_from(map, idx, i + 1)
    }
}

/// The trace entries of the first `k` edges whose ends both have entries.
pub open spec fn trace_connections_upto(map: Seq<(NodeReflection, usize)>, es: Seq<(int, int, EdgeInfo)>, k: int) -> Seq<ConnectionInfo>
    decreases k,
{
    if k <= 0 {
        Seq::empty()
    } else {
        let rest = trace_connections_upto(map, es, k - 1);
        match (node_at_index_from(map, es[k - 1].0, 0), node_at_index_from(map, es[k - 1].1, 0)) {
            (Some(s), Some(t)) => rest.push(ConnectionInfo {
                source_id: s,
                source_output: es[k - 1].2.source_output,
                target_id: t,
                target_input: es[k - 1].2.target_input,
                highlighted: false,
            }),
            _ => rest,
        }
    }
}

/// The graph's entries that are urgent nodes of the registry, among the
/// first `k`, as dag indices.
pub open spec fn urgent_upto<S: Stage>(map: Seq<(NodeReflection, usize)>, reg: &Registry<S>, k: int) -> Seq<usize>
    decreases k,
{
    if k <= 0 {
        Seq::empty()
    } else if reg.node(map[k - 1].0.id as int).eval_strategy == EvalStrategy::Urgent {
        urgent_upto(map, reg, k - 1).push(map[k - 1].1)
    } else {
        urgent_upto(map, reg, k - 1)
    }
}

/// The first graph entry, from `i` on, whose node the registry lacks.
pub open spec fn first_absent_from<S: Stage>(map: Seq<(NodeReflection, usize)>, reg: &Registry<S>, i: int) -> Option<int>
    decreases map.len() - i,
{
    if i < 0 || i >= map.len() {
        None
    } else if !reg.holds(map[i].0.id as int) {
        Some(i)
    } else {
        first_absent_from(map, reg, i + 1)
    }
}

pub proof fn lemma_first_absent_from<S: Stage>(map: Seq<(NodeReflection, usize)>, reg: &Registry<S>, i: int)
    requires
        0 <= i <= map.len(),
    ensures
        first_absent_from(map, reg, i) matches Some(k) ==> i <= k < map.len() && !reg.holds(map[k].0.id as int),
        first_absent_from(map, reg, i) is None ==> forall|j: int| i <= j < map.len() ==> reg.holds(#[trigger] map[j].0.id as int),
    decreases map.len() - i,
{
    if i < map.len() {
        lemma_first_absent_from(map, reg, i + 1);
    }
}

pub proof fn lemma_urgent_upto<S: Stage>(map: Seq<(NodeReflection, usize)>, reg: &Registry<S>, k: int)
    requires
        0 <= k <= map.len(),
    ensures
        forall|j: int| 0 <= j < urgent_upto(map, reg, k).len() ==>
            exists|m: int| 0 <= m < k && (#[trigger] urgent_upto(map, reg, k)[j]) == map[m].1,
    decreases k,
{
    if k > 0 {
        lemma_urgent_upto(map, reg, k - 1);
        let rest = urgent_upto(map, reg, k - 1);
        let cur = urgent_upto(map, reg, k);
        assert forall|j: int| 0 <= j < cur.len() implies exists|m: int| 0 <= m < k && (#[trigger] cur[j]) == map[m].1 by {
            if j < rest.len() {
                assert(cur[j] == rest[j]);
                let m = choose|m: int| 0 <= m < k - 1 && (#[trigger] rest[j]) == map[m].1;
                assert(cur[j] == map[m].1);
            } else {
                assert(cur[j] == map[k - 1].1);
            }
        }
    }
}

/// The edge indices of a list of parents.
pub open spec fn edge_ids(parents: Seq<(usize, usize)>) -> Seq<int> {
    parents.map_values(|p: (usize, usize)| p.0 as int)
}

impl Graph {
    /// The node weights of the dag: the registry node behind each index.
    pub closed spec fn nodes(&self) -> Seq<NodeReflection> {
        dag_nodes(self.dag)
    }

    /// The edges of the dag, by edge index: source, target and weight.
    pub closed spec fn edges(&self) -> Seq<(int, int, EdgeInfo)> {
        dag_edges(self.dag)
    }

    /// Each registry node of the graph with its index in the dag.
    pub closed spec fn index_map(&self) -> Seq<(NodeReflection, usize)> {
        self.node_indices@
    }

    /// The dag index of the registry node `r`, if the graph holds it.
    pub open spec fn index_of(&self, r: NodeReflection) -> Option<int> {
        match key_position_from(self.index_map(), r, 0) {
            Some(k) => Some(self.index_map()[k].1 as int),
            None => None,
        }
    }

    /// The graph's invariant: an acyclic dag whose edges join its nodes, and
    /// an index map with one entry per registry node, pointing at a node
    /// of that weight, such that every node's weight has an entry.
    pub open spec fn wf(&self) -> bool {
        &&& self.nodes().len() <= index_end()
        &&& self.edges().len() <= index_end()
        &&& edges_within(self.edges(), self.nodes().len() as int)
        &&& acyclic(self.edges())
        &&& forall|k: int| 0 <= k < self.index_map().len() ==> {
            &&& (#[trigger] self.index_map()[k]).1 < self.nodes().len()
            &&& self.nodes()[self.index_map()[k].1 as int] == self.index_map()[k].0
        }
        &&& forall|k1: int, k2: int| 0 <= k1 < self.index_map().len() && 0 <= k2 < self.index_map().len()
            && k1 != k2 ==> !same_node(#[trigger] self.index_map()[k1].0, #[trigger] self.index_map()[k2].0)
        &&& forall|y: int| 0 <= y < self.nodes().len() ==> has_key(self.index_map(), #[trigger] self.nodes()[y])
    }

    /// An empty graph.
    pub fn new() -> (r: Self)
        ensures
            r.wf(),
            r.nodes().len() == 0,
            r.edges().len() == 0,
            r.index_map().len() == 0,
    {
        let dag = dag_new();
        proof { crate::dag::lemma_acyclic_empty(dag_edges(dag)); }
        Graph { dag, node_indices: Vec::new() }
    }

    /// Position in the index map of the registry node `r`.
    fn key_position(&self, r: &NodeReflection) -> (res: Option<usize>)
        ensures
            res matches Some(k) ==> key_position_from(self.index_map(), *r, 0) == Some(k as int)
                && k < self.index_map().len(),
            res is None ==> key_position_from(self.index_map(), *r, 0) is None,
    {
        proof { lemma_key_position_from(self.index_map(), *r, 0); }
        let n = self.node_indices.len();
        let mut i: usize = 0;
        while i < n
            invariant
                n == self.index_map().len(),
                i <= n,
                key_position_from(self.index_map(), *r, 0) == key_position_from(self.index_map(), *r, i as int),
            decreases n - i,
        {
            if same_node_exec(&self.node_indices[i].0, r) {
                return Some(i);
            }
            i = i + 1;
        }
        None
    }

    /// Adds a new node to the graph, by its registry identity, and returns
    /// its index in the dag. A registry node that the graph holds already
    /// is pointed at the new index.
    pub fn add_node(&mut self, id: NodeReflection) -> (r: usize)
        requires
            old(self).wf(),
            old(self).nodes().len() < index_end(),
        ensures
            final(self).wf(),
            r == old(self).nodes().len(),
            final(self).nodes() == old(self).nodes().push(id),
            final(self).edges() == old(self).edges(),
            match key_position_from(old(self).index_map(), id, 0) {
                Some(k) => final(self).index_map() == old(self).index_map().update(k, (id, r)),
                None => final(self).index_map() == old(self).index_map().push((id, r)),
            },
    {
        let idx = dag_add_node(&mut self.dag, id);
        let pos = self.key_position(&id);
        let ghost old_map = self.node_indices@;
        let ghost old_nodes = dag_nodes(old(self).dag);
        proof { lemma_key_position_from(old_map, id, 0); }
        match pos {
            Some(k) => {
                self.node_indices.set(k, (id, idx));
            },
            None => {
                self.node_indices.push((id, idx));
            },
        }
        proof {
            let map = self.node_indices@;
            let nodes = dag_nodes(self.dag);
            let es = dag_edges(self.dag);
            assert(es == old(self).edges());
            assert forall|i: int| 0 <= i < es.len() implies 0 <= (#[trigger] es[i]).0 < nodes.len() && 0 <= es[i].1 < nodes.len() by {
                assert(0 <= old(self).edges()[i].0 < old_nodes.len());
            }
            assert forall|k: int| 0 <= k < map.len() implies {
                &&& (#[trigger] map[k]).1 < nodes.len()
                &&& nodes[map[k].1 as int] == map[k].0
            } by {
                if k < old_map.len() && map[k] == old_map[k] {
                    assert(old(self).index_map()[k] == old_map[k]);
                }
            }
            assert forall|k1: int, k2: int| 0 <= k1 < map.len() && 0 <= k2 < map.len() && k1 != k2
                implies !same_node(#[trigger] map[k1].0, #[trigger] map[k2].0) by {
                if k1 < old_map.len() && k2 < old_map.len() {
                    assert(old(self).index_map()[k1] == old_map[k1]);
                    assert(old(self).index_map()[k2] == old_map[k2]);
                }
            }
            assert forall|y: int| 0 <= y < self.nodes().len() implies
                has_key(self.index_map(), #[trigger] self.nodes()[y]) by {
                if y == old_nodes.len() {
                    match pos {
                        Some(k) => { assert(same_node(self.index_map()[k as int].0, self.nodes()[y])); },
                        None => { assert(same_node(self.index_map()[old_map.len() as int].0, self.nodes()[y])); },
                    }
                } else {
                    assert(nodes[y] == old_nodes[y]);
                    assert(old(self).nodes()[y] == old_nodes[y]);
                    assert(has_key(old(self).index_map(), old(self).nodes()[y]));
                    let k = choose|k: int| 0 <= k < old_map.len() && same_node(#[trigger] old(self).index_map()[k].0, old(self).nodes()[y]);
                    match pos {
                        Some(p) => {
                            if k == p as int {
                                assert(same_node(old_map[k].0, id));
                                assert(map[k].0 == id);
                            } else {
                                assert(map[k] == old_map[k]);
                            }
                        },
                        None => {
                            assert(map[k] == old_map[k]);
                        },
                    }
                    assert(same_node(self.index_map()[k].0, self.nodes()[y]));
                }
            }
        }
        idx
    }

    /// Takes node identities and adds them to an unconnected graph, in
    /// order: the `i`-th at dag index `i`, and each registry node found
    /// at the index where it was listed last.
    pub fn from_node_ids(node_ids: &[NodeReflection]) -> (r: Self)
        requires
            node_ids@.len() < index_end(),
        ensures
            r.wf(),
            r.nodes() == node_ids@,
            r.edges().len() == 0,
            forall|a: int| 0 <= a < node_ids@.len()
                ==> r.index_of(#[trigger] node_ids@[a]) == Some(last_same(node_ids@, a, node_ids@.len() as int)),
    {
        let mut graph = Self::new();
        let n = node_ids.len();
        let mut i: usize = 0;
        while i < n
            invariant
                n == node_ids@.len(),
                n < index_end(),
                i <= n,
                graph.wf(),
                graph.nodes() == node_ids@.take(i as int),
                graph.edges().len() == 0,
                forall|a: int| 0 <= a < i
                    ==> graph.index_of(#[trigger] node_ids@[a]) == Some(last_same(node_ids@, a, i as int)),
            decreases n - i,
        {
            let ghost before = graph;
            let ghost m0 = graph.index_map();
            let id = node_ids[i];
            graph.add_node(id);
            proof {
                lemma_key_position_from(m0, id, 0);
                assert forall|a: int| 0 <= a < i + 1
                    implies graph.index_of(#[trigger] node_ids@[a]) == Some(last_same(node_ids@, a, i + 1)) by {
                    let x = node_ids@[a];
                    if same_node(id, x) {
                        assert(last_same(node_ids@, a, i + 1) == i);
                        lemma_key_position_same(m0, id, x, 0);
                        match key_position_from(m0, id, 0) {
                            Some(k) => {
                                lemma_key_position_update(m0, k, (id, i as usize), x, 0);
                            },
                            None => {
                                lemma_key_position_push(m0, (id, i as usize), x, 0);
                            },
                        }
                    } else {
                        assert(a < i);
                        assert(last_same(node_ids@, a, i + 1) == last_same(node_ids@, a, i as int));
                        assert(before.index_of(x) is Some);
                        lemma_key_position_from(m0, x, 0);
                        match key_position_from(m0, id, 0) {
                            Some(k) => {
                                lemma_key_position_update(m0, k, (id, i as usize), x, 0);
                                let q = key_position_from(m0, x, 0)->0;
                                if q == k {
                                    assert(same_node(m0[k].0, x));
                                    assert(same_node(m0[k].0, id));
                                }
                            },
                            None => {
                                lemma_key_position_push(m0, (id, i as usize), x, 0);
                            },
                        }
                    }
                }
            }
            i = i + 1;
            assert(graph.nodes() =~= node_ids@.take(i as int));
        }
        assert(node_ids@.take(n as int) =~= node_ids@);
        graph
    }

    /// The number of nodes of the dag.
    pub fn node_count(&self) -> (r: usize)
        ensures
            r == self.nodes().len(),
    {
        dag_node_count(&self.dag)
    }

    /// The number of edges of the dag.
    pub fn edge_count(&self) -> (r: usize)
        ensures
            r == self.edges().len(),
    {
        dag_edge_count(&self.dag)
    }

    /// The registry node at dag index `idx`.
    pub fn get_node_id_from_node_index(&self, idx: usize) -> (r: Result<NodeReflection, NodeNotFoundInGraphError>)
        requires
            idx <= index_end(),
        ensures
            idx < self.nodes().len() ==> r == Ok::<NodeReflection, NodeNotFoundInGraphError>(self.nodes()[idx as int]),
            idx >= self.nodes().len() ==> (r matches Err(e) && e.0 == idx),
    {
        match dag_node_weight(&self.dag, idx) {
            Some(n) => Ok(n),
            None => Err(NodeNotFoundInGraphError(idx)),
        }
    }

    /// The registry node whose dag index is `idx`, from the index map.
    fn node_at_index(&self, idx: usize) -> (r: Option<NodeReflection>)
        ensures
            r == node_at_index_from(self.index_map(), idx as int, 0),
    {
        let n = self.node_indices.len();
        let mut i: usize = 0;
        while i < n
            invariant
                n == self.index_map().len(),
                i <= n,
                node_at_index_from(self.index_map(), idx as int, 0) == node_at_index_from(self.index_map(), idx as int, i as int),
            decreases n - i,
        {
            if self.node_indices[i].1 == idx {
                return Some(self.node_indices[i].0);
            }
            i = i + 1;
        }
        None
    }

    /// Generates a trace of the graph: an entry for each graph node that
    /// the registry holds, in the order of the index map, and one for each
    /// edge whose ends both have entries in the index map.
    pub fn generate_trace<S: Stage>(&self, registry: &Registry<S>) -> (r: GraphTrace)
        requires
            self.wf(),
        ensures
            r.nodes@ == trace_nodes_upto(self.index_map(), registry, self.index_map().len() as int),
            r.connections@ == trace_connections_upto(self.index_map(), self.edges(), self.edges().len() as int),
    {
        let mut nodes: Vec<NodeInfo> = Vec::new();
        let n = self.node_indices.len();
        let mut i: usize = 0;
        while i < n
            invariant
                n == self.index_map().len(),
                i <= n,
                nodes@ == trace_nodes_upto(self.index_map(), registry, i as int),
            decreases n - i,
        {
            let id = self.node_indices[i].0;
            match registry.get_node_by_id(id) {
                Some(node) => {
                    nodes.push(NodeInfo {
                        id,
                        name: node.shape.stage_name,
                        inputs: node.shape.inputs,
                        outputs: node.shape.outputs,
                        highlighted: false,
                    });
                },
                None => {},
            }
            i = i + 1;
        }
        let mut connections: Vec<ConnectionInfo> = Vec::new();
        let m = dag_edge_count(&self.dag);
        let mut j: usize = 0;
        while j < m
            invariant
                m == self.edges().len(),
                j <= m,
                connections@ == trace_connections_upto(self.index_map(), self.edges(), j as int),
            decreases m - j,
        {
            let (source, target, info) = dag_raw_edge(&self.dag, j);
            let source_id = self.node_at_index(source);
            let target_id = self.node_at_index(target);
            match (source_id, target_id) {
                (Some(s), Some(t)) => {
                    connections.push(ConnectionInfo {
                        source_id: s,
                        source_output: info.source_output,
                        target_id: t,
                        target_input: info.target_input,
                        highlighted: false,
                    });
                },
                _ => {},
            }
            j = j + 1;
        }
        GraphTrace { nodes, connections }
    }

    /// Builds a vec of all non-lazy nodes in the graph, as dag indices in
    /// the order of the index map; an error naming the first graph node
    /// that the registry lacks.
    pub fn urgent_nodes<S: Stage>(&self, registry: &Registry<S>) -> (r: Result<Vec<usize>, NodeExecutionError>)
        requires
            self.wf(),
        ensures
            match first_absent_from(self.index_map(), registry, 0) {
                Some(k) => r matches Err(NodeExecutionError::NodesNotFoundInRegistry(e)) && e.0@ == seq![self.index_map()[k].0],
                None => r matches Ok(v) && v@ == urgent_upto(self.index_map(), registry, self.index_map().len() as int),
            },
    {
        proof { lemma_first_absent_from(self.index_map(), registry, 0); }
        let mut urgent: Vec<usize> = Vec::new();
        let n = self.node_indices.len();
        let mut i: usize = 0;
        while i < n
            invariant
                self.wf(),
                n == self.index_map().len(),
                i <= n,
                first_absent_from(self.index_map(), registry, 0) == first_absent_from(self.index_map(), registry, i as int),
                urgent@ == urgent_upto(self.index_map(), registry, i as int),
            decreases n - i,
        {
            let idx = self.node_indices[i].1;
            let node_id = match dag_node_weight(&self.dag, idx) {
                Some(w) => w,
                None => {
                    return Err(NodeExecutionError::NodeNotFoundInGraph(NodeNotFoundInGraphError(idx)));
                },
            };
            let node = match registry.get_node_any(node_id) {
                Some(node) => node,
                None => {
                    return Err(NodeExecutionError::NodesNotFoundInRegistry(NodesNotFoundError::single(node_id)));
                },
            };
            if node.eval_strategy == EvalStrategy::Urgent {
                urgent.push(idx);
            }
            i = i + 1;
        }
        Ok(urgent)
    }

    /// Every node of the dag is held by the registry.
    pub open spec fn held_by<S: Stage>(&self, reg: &Registry<S>) -> bool {
        forall|y: int| 0 <= y < self.nodes().len() ==> reg.holds(#[trigger] self.nodes()[y].id as int)
    }

    /// The registry holds dag node `x` and every node with an edge into it.
    pub open spec fn feeds_held<S: Stage>(&self, reg: &Registry<S>, x: int) -> bool {
        &&& reg.holds(self.nodes()[x].id as int)
        &&& forall|p: int| 0 <= p < self.nodes().len() && crate::dag::has_edge(self.edges(), p, x)
            ==> reg.holds(#[trigger] self.nodes()[p].id as int)
    }

    /// No edge into dag node `x` comes from a node with the same registry
    /// index as `x`.
    pub open spec fn ends_distinct_into(&self, x: int) -> bool {
        forall|e: int| 0 <= e < self.edges().len() && (#[trigger] self.edges()[e]).1 == x
            ==> self.nodes()[self.edges()[e].0].id != self.nodes()[x].id
    }

    /// No edge into a node upstream of dag node `x` (`x` included) comes
    /// from a node with the same registry index as its target.
    pub open spec fn ends_distinct_upstream(&self, x: int) -> bool {
        forall|z: int| 0 <= z < self.nodes().len() && reach(self.edges(), z, x) ==> #[trigger] self.ends_distinct_into(z)
    }

    proof fn lemma_distinct_parent(&self, p: int, x: int)
        requires
            self.wf(),
            self.ends_distinct_upstream(x),
            crate::dag::has_edge(self.edges(), p, x),
        ensures
            self.ends_distinct_upstream(p),
    {
        assert forall|z: int| 0 <= z < self.nodes().len() && reach(self.edges(), z, p) implies #[trigger] self.ends_distinct_into(z) by {
            lemma_reach_append(self.edges(), z, p, x);
        }
    }

    /// No edge joins two nodes with the same registry index.
    pub open spec fn distinct_ends(&self) -> bool {
        forall|e: int| 0 <= e < self.edges().len() ==>
            self.nodes()[(#[trigger] self.edges()[e]).0].id != self.nodes()[self.edges()[e].1].id
    }

    /// Registry slot `i` holds a node upstream of dag node `x` (`x` included).
    pub open spec fn upstream_slot(&self, x: int, i: int) -> bool {
        exists|z: int| 0 <= z < self.nodes().len() && reach(self.edges(), z, x) && (#[trigger] self.nodes()[z]).id == i
    }

    /// No node upstream of dag node `x` (`x` included) has a changed input
    /// waiting.
    pub open spec fn settled<S: Stage>(&self, reg: &Registry<S>, x: int) -> bool {
        forall|z: int| 0 <= z < self.nodes().len() && reach(self.edges(), z, x)
            ==> !reg.node((#[trigger] self.nodes()[z]).id as int).input_changed
    }

    /// Edge `e` carries no data, or carries it into an input that the node
    /// in slot `c` declares and that now holds a value.
    pub open spec fn input_filled<S: Stage>(&self, reg: &Registry<S>, c: int, e: int) -> bool {
        match self.edges()[e].2.target_input {
            None => true,
            Some(f) => find_named(reg.node(c).shape.inputs@, f.name@) matches Some(k)
                && reg.node(c).inputs@[k] is Some,
        }
    }

    /// Edge `e` names an input that the node in slot `c` does not declare.
    pub open spec fn input_unknown<S: Stage>(&self, reg: &Registry<S>, c: int, e: int) -> bool {
        self.edges()[e].2.target_input matches Some(f) && find_named(reg.node(c).shape.inputs@, f.name@) is None
    }

    /// Edge `e` carries data, and the node in slot `p` moves its outputs.
    pub open spec fn moves_data<S: Stage>(&self, reg: &Registry<S>, p: int, e: int) -> bool {
        self.edges()[e].2.target_input is Some && reg.node(p).reeval_rule == ReevaluationRule::Move
    }

    /// The registry slot of the node that edge `e` comes from.
    pub open spec fn source_slot(&self, e: int) -> int {
        self.nodes()[self.edges()[e].0].id as int
    }

    /// The output position that edge `e` reads in its source node.
    pub open spec fn read_position<S: Stage>(&self, reg: &Registry<S>, e: int) -> Option<int> {
        output_position(*reg.node(self.source_slot(e)).shape, self.edges()[e].2.source_output)
    }

    /// Edge `e` carries data out of slot `s`, whose node moves its outputs,
    /// from output position `k`: the flow along it empties that output.
    pub open spec fn takes<S: Stage>(&self, reg: &Registry<S>, e: int, s: int, k: int) -> bool {
        &&& self.edges()[e].2.target_input is Some
        &&& self.source_slot(e) == s
        &&& reg.node(s).reeval_rule == ReevaluationRule::Move
        &&& self.read_position(reg, e) == Some(k)
    }

    /// One of the first `i` listed edges takes output `k` of slot `s`.
    pub open spec fn taken_before<S: Stage>(&self, reg: &Registry<S>, es: Seq<int>, s: int, k: int, i: int) -> bool {
        exists|j: int| 0 <= j < i && #[trigger] self.takes(reg, es[j], s, k)
    }

    proof fn lemma_taken_step<S: Stage>(&self, reg: &Registry<S>, es: Seq<int>, s: int, k: int, i: int)
        requires
            0 <= i,
        ensures
            self.taken_before(reg, es, s, k, i + 1) == (self.taken_before(reg, es, s, k, i) || self.takes(reg, es[i], s, k)),
    {
        if self.taken_before(reg, es, s, k, i + 1) && !self.takes(reg, es[i], s, k) {
            let j = choose|j: int| 0 <= j < i + 1 && #[trigger] self.takes(reg, es[j], s, k);
            assert(j < i);
        }
        if self.takes(reg, es[i], s, k) {
            assert(0 <= i < i + 1 && self.takes(reg, es[i], s, k));
        }
    }

    /// The last of the first `i` listed edges that names input `m` of the
    /// node in slot `c`.
    pub open spec fn last_writer<S: Stage>(&self, reg: &Registry<S>, c: int, es: Seq<int>, m: int, i: int) -> Option<int>
        decreases i,
    {
        if i <= 0 {
            None
        } else if self.names_input(reg, c, es[i - 1], m) {
            Some(i - 1)
        } else {
            self.last_writer(reg, c, es, m, i - 1)
        }
    }

    /// `slot` is what edge `e` hands the input it names, its source node
    /// being as in `reg`: the output it reads itself, with rule `Move`, from
    /// a node that moves its outputs; else a clone of it with rule
    /// `CacheLast`.
    pub open spec fn handed<S: Stage>(&self, reg: &Registry<S>, e: int, slot: Option<(S::Value, ReevaluationRule)>) -> bool {
        let p = reg.node(self.source_slot(e));
        let v = p.outputs@[self.read_position(reg, e).unwrap()].unwrap();
        if p.reeval_rule == ReevaluationRule::Move {
            slot == Some((v, ReevaluationRule::Move))
        } else {
            slot matches Some((c, rule)) && rule == ReevaluationRule::CacheLast && cloned::<S::Value>(v, c)
        }
    }

    /// The data of the listed edges, flowed in order from `reg`, is in the
    /// node `after` of slot `c`: each input holds what the last edge naming
    /// it handed, and an input that no edge names is as in `reg`.
    pub open spec fn inputs_flowed<S: Stage>(&self, reg: &Registry<S>, c: int, es: Seq<int>, after: Node<S>) -> bool {
        forall|m: int| 0 <= m < reg.node(c).inputs@.len() ==> match #[trigger] self.last_writer(reg, c, es, m, es.len() as int) {
            Some(j) => self.handed(reg, es[j], after.inputs@[m]),
            None => after.inputs@[m] == reg.node(c).inputs@[m],
        }
    }

    /// The outputs of every slot but `c` in `after` are those of `reg`, with
    /// each output that a listed edge takes emptied.
    pub open spec fn outputs_taken<S: Stage>(&self, reg: &Registry<S>, c: int, es: Seq<int>, after: &Registry<S>) -> bool {
        forall|s: int, k: int| s != c && reg.holds(s) && 0 <= k < reg.node(s).outputs@.len()
            ==> #[trigger] after.node(s).outputs@[k] == (if self.taken_before(reg, es, s, k, es.len() as int) {
                None
            } else {
                reg.node(s).outputs@[k]
            })
    }

    /// The error that the flow along the `i`-th listed edge into the node
    /// in slot `c` meets once the flows along the edges before it are done
    /// from `reg`: the input it names is missing, the output it reads is
    /// missing or empty (an earlier edge may have taken it), or its type is
    /// not the input's base type; `None` when it can carry its data or
    /// carries none.
    pub open spec fn edge_error<S: Stage>(&self, reg: &Registry<S>, c: int, es: Seq<int>, i: int) -> Option<InjectionError> {
        let e = es[i];
        let info = self.edges()[e].2;
        let s = self.source_slot(e);
        let parent = reg.node(s);
        let child = reg.node(c);
        match info.target_input {
            None => None,
            Some(f) => match find_named(child.shape.inputs@, f.name@) {
                None => Some(InjectionError::InputNotFound(None)),
                Some(m) => match output_position(*parent.shape, info.source_output) {
                    Some(k) => if k < parent.outputs@.len() && parent.outputs@[k] is Some && !self.taken_before(reg, es, s, k, i) {
                        if parent.shape.outputs@[k].ty@ == base_type(child.shape.inputs@[m].ty@) {
                            None
                        } else {
                            Some(InjectionError::OutputTypeMismatch(info.source_output))
                        }
                    } else {
                        Some(InjectionError::OutputNotFound(info.source_output))
                    },
                    None => Some(InjectionError::OutputNotFound(info.source_output)),
                },
            },
        }
    }

    /// The flows along the listed edges into the node `c` (dag node `x`),
    /// done in order from `reg`, stopped at the `k`-th with `err`: every
    /// edge before it carried its data, the `k`-th met the error `err`
    /// reports, with that flow highlighted in the trace `top`; `after` holds
    /// the data of the edges before it (the node's inputs and the outputs
    /// taken), and a parent that moves its outputs lost the one it read
    /// when its type did not fit.
    pub open spec fn fails_at<S: Stage>(&self, reg: &Registry<S>, x: int, es: Seq<int>, k: int,
        err: ErrorWithTrace<NodeExecutionError>, top: GraphTrace, after: &Registry<S>) -> bool {
        let c = self.nodes()[x].id as int;
        &&& 0 <= k < es.len()
        &&& forall|j: int| 0 <= j < k ==> #[trigger] self.edge_error(reg, c, es, j) is None
        &&& self.edge_error(reg, c, es, k) matches Some(ie) && err.error == NodeExecutionError::InputInjection(ie)
        &&& self.highlights_flow(err.graph_trace, top, es[k], self.nodes()[x])
        &&& forall|m: int| 0 <= m < reg.node(c).inputs@.len() ==> match #[trigger] self.last_writer(reg, c, es, m, k) {
            Some(j) => self.handed(reg, es[j], after.node(c).inputs@[m]),
            None => after.node(c).inputs@[m] == reg.node(c).inputs@[m],
        }
        &&& forall|s: int, o: int| s != c && reg.holds(s) && 0 <= o < reg.node(s).outputs@.len()
            ==> #[trigger] after.node(s).outputs@[o] == (if self.taken_before(reg, es, s, o, k)
                || (self.edge_error(reg, c, es, k) matches Some(InjectionError::OutputTypeMismatch(_)) && self.takes(reg, es[k], s, o)) {
                None
            } else {
                reg.node(s).outputs@[o]
            })
    }

    /// The `j`-th listed edge copies into the node in slot `c` a value that
    /// the node did not hold: its source node does not move its outputs,
    /// the output it reads holds a value, it is the first listed edge to
    /// name its input, and that input was empty or held a value not equal
    /// to the one read.
    pub open spec fn copies_new_value<S: Stage>(&self, reg: &Registry<S>, c: int, es: Seq<int>, j: int) -> bool {
        let e = es[j];
        let p = reg.node(self.source_slot(e));
        &&& p.reeval_rule != ReevaluationRule::Move
        &&& match self.edges()[e].2.target_input {
            None => false,
            Some(f) => match find_named(reg.node(c).shape.inputs@, f.name@) {
                None => false,
                Some(m) => match p.available_output(self.edges()[e].2.source_output) {
                    None => false,
                    Some(k) => {
                        &&& forall|j2: int| 0 <= j2 < j ==> !self.names_input(reg, c, #[trigger] es[j2], m)
                        &&& match reg.node(c).inputs@[m] {
                            None => true,
                            Some(held) => !p.outputs@[k].unwrap().eq_spec(&held.0),
                        }
                    },
                },
            },
        }
    }

    /// Every listed edge that carries data into the node in slot `c` comes
    /// from a node that does not move its outputs, names an input of the
    /// node that no other listed edge names, and reads an output that holds
    /// a value equal to the one that input holds: a flow that changes
    /// nothing.
    pub open spec fn copies_unchanged<S: Stage>(&self, reg: &Registry<S>, c: int, es: Seq<int>) -> bool {
        forall|j: int| 0 <= j < es.len() && self.edges()[#[trigger] es[j]].2.target_input is Some ==> {
            let e = es[j];
            let p = reg.node(self.source_slot(e));
            let f = self.edges()[e].2.target_input->0;
            &&& p.reeval_rule != ReevaluationRule::Move
            &&& match find_named(reg.node(c).shape.inputs@, f.name@) {
                None => false,
                Some(m) => {
                    &&& forall|j2: int| 0 <= j2 < es.len() && j2 != j ==> !self.names_input(reg, c, #[trigger] es[j2], m)
                    &&& match reg.node(c).inputs@[m] {
                        None => false,
                        Some(held) => match p.available_output(self.edges()[e].2.source_output) {
                            None => false,
                            Some(k) => p.outputs@[k].unwrap().eq_spec(&held.0),
                        },
                    }
                },
            }
        }
    }

    /// Edge `e` names input `m` of the node in slot `c`.
    pub open spec fn names_input<S: Stage>(&self, reg: &Registry<S>, c: int, e: int, m: int) -> bool {
        self.edges()[e].2.target_input matches Some(f) && find_named(reg.node(c).shape.inputs@, f.name@) == Some(m)
    }

    /// Edge `e` can carry its data into the node in slot `c`: it carries
    /// none, or the input it names exists, the output it reads holds a value
    /// in the edge's source node, and that output's type is the input's
    /// base type.
    pub open spec fn edge_ready<S: Stage>(&self, reg: &Registry<S>, c: int, e: int) -> bool {
        let info = self.edges()[e].2;
        let parent = reg.node(self.nodes()[self.edges()[e].0].id as int);
        let child = reg.node(c);
        match info.target_input {
            None => true,
            Some(f) => match find_named(child.shape.inputs@, f.name@) {
                None => false,
                Some(i) => match parent.available_output(info.source_output) {
                    None => false,
                    Some(k) => parent.shape.outputs@[k].ty@ == base_type(child.shape.inputs@[i].ty@),
                },
            },
        }
    }

    /// No two of the listed edges that carry data read the same output of a
    /// source node that moves its outputs (the first would leave it empty).
    pub open spec fn no_shared_move<S: Stage>(&self, reg: &Registry<S>, es: Seq<int>) -> bool {
        forall|j1: int, j2: int|
            0 <= j1 < es.len() && 0 <= j2 < es.len() && j1 != j2
            && self.edges()[#[trigger] es[j1]].2.target_input is Some
            && self.edges()[#[trigger] es[j2]].2.target_input is Some
            && self.nodes()[self.edges()[es[j1]].0].id == self.nodes()[self.edges()[es[j2]].0].id
            && reg.node(self.nodes()[self.edges()[es[j1]].0].id as int).reeval_rule == ReevaluationRule::Move
            ==> output_position(*reg.node(self.nodes()[self.edges()[es[j1]].0].id as int).shape,
                    self.edges()[es[j1]].2.source_output)
                != output_position(*reg.node(self.nodes()[self.edges()[es[j1]].0].id as int).shape,
                    self.edges()[es[j2]].2.source_output)
    }

    /// Every listed edge can carry its data into the node in slot `c`, and
    /// no two of them take the same moved output.
    pub open spec fn flow_ready<S: Stage>(&self, reg: &Registry<S>, c: int, es: Seq<int>) -> bool {
        &&& forall|j: int| 0 <= j < es.len() ==> self.edge_ready(reg, c, #[trigger] es[j])
        &&& self.no_shared_move(reg, es)
    }

    /// Each input of the node in slot `c` holds a value or is named by one of
    /// the listed edges.
    pub open spec fn inputs_covered<S: Stage>(&self, reg: &Registry<S>, c: int, es: Seq<int>) -> bool {
        forall|m: int| 0 <= m < reg.node(c).inputs@.len() ==> (#[trigger] reg.node(c).inputs@[m]) is Some
            || exists|j: int| 0 <= j < es.len() && self.names_input(reg, c, #[trigger] es[j], m)
    }

    /// The indices of the incoming edges of dag node `x`, newest first.
    pub open spec fn incoming_ids(&self, x: int) -> Seq<int> {
        incoming(self.edges(), x).map_values(|p: (int, int)| p.0)
    }

    /// Dag node `x` can take the data of all its incoming edges and then be
    /// evaluated: every edge can carry its data, no two take one moved
    /// output, and every input of the node ends up holding a value.
    pub open spec fn node_ready<S: Stage>(&self, reg: &Registry<S>, x: int) -> bool {
        &&& self.flow_ready(reg, self.nodes()[x].id as int, self.incoming_ids(x))
        &&& self.inputs_covered(reg, self.nodes()[x].id as int, self.incoming_ids(x))
    }

    /// Flows outputs from all parents to a node's inputs, one incoming edge
    /// at a time in the order given; stops at the first error, with the
    /// trace highlighting the parent, the node and the connection. After
    /// success every edge that carries data has filled the input it names;
    /// an edge naming an input that the node lacks makes it fail. The node's
    /// change mark is never cleared, and data from a parent that moves its
    /// outputs sets it.
    fn flow_data<S: Stage>(
        &self,
        registry: &mut Registry<S>,
        top_trace: &GraphTrace,
        Ghost(x): Ghost<int>,
        node_id: NodeReflection,
        parents: &Vec<(usize, usize)>,
    ) -> (r: Result<(), ErrorWithTrace<NodeExecutionError>>)
        requires
            self.wf(),
            self.ends_distinct_into(x),
            0 <= x < self.nodes().len(),
            node_id == self.nodes()[x],
            forall|j: int| 0 <= j < parents@.len() ==> {
                &&& (#[trigger] parents@[j]).0 < self.edges().len()
                &&& self.edges()[parents@[j].0 as int].0 == parents@[j].1
                &&& self.edges()[parents@[j].0 as int].1 == x
            },
            old(registry).wf(),
            self.feeds_held(old(registry), x),
        ensures
            final(registry).wf(),
            final(registry).same_layout(old(registry)),
            forall|i: int| 0 <= i < old(registry).slots().len() && i != node_id.id && !(exists|j: int| 0 <= j < parents@.len()
                && (#[trigger] self.nodes()[parents@[j].1 as int]).id == i)
                ==> final(registry).slots()[i] == old(registry).slots()[i],
            forall|i: int| #[trigger] old(registry).holds(i) && i != node_id.id
                ==> final(registry).node(i).input_changed == old(registry).node(i).input_changed,
            forall|i: int| #[trigger] old(registry).holds(i) && i != node_id.id ==> {
                &&& final(registry).node(i).state == old(registry).node(i).state
                &&& final(registry).node(i).inputs == old(registry).node(i).inputs
                &&& final(registry).node(i).cache == old(registry).node(i).cache
            },
            r matches Err(e) ==> (e.error matches NodeExecutionError::InputInjection(_)) && e.graph_trace is Some,
            r is Ok ==> forall|j: int| 0 <= j < parents@.len()
                ==> self.input_filled(final(registry), node_id.id as int, (#[trigger] parents@[j]).0 as int),
            (exists|j: int| 0 <= j < parents@.len()
                && self.input_unknown(old(registry), node_id.id as int, (#[trigger] parents@[j]).0 as int)) ==> r is Err,
            old(registry).node(node_id.id as int).input_changed ==> final(registry).node(node_id.id as int).input_changed,
            final(registry).node(node_id.id as int).state == old(registry).node(node_id.id as int).state,
            final(registry).node(node_id.id as int).outputs == old(registry).node(node_id.id as int).outputs,
            final(registry).node(node_id.id as int).cache == old(registry).node(node_id.id as int).cache,
            r is Ok && (exists|j: int| 0 <= j < parents@.len()
                && self.moves_data(old(registry), self.nodes()[(#[trigger] parents@[j]).1 as int].id as int, parents@[j].0 as int))
                ==> final(registry).node(node_id.id as int).input_changed,
            self.flow_ready(old(registry), node_id.id as int, edge_ids(parents@)) ==> r is Ok,
            r matches Err(e) ==> exists|j: int| 0 <= j < parents@.len()
                && self.highlights_flow(e.graph_trace, *top_trace, (#[trigger] parents@[j]).0 as int, node_id),
            forall|m: int| 0 <= m < old(registry).node(node_id.id as int).inputs@.len()
                && !(exists|j: int| 0 <= j < parents@.len()
                    && self.names_input(old(registry), node_id.id as int, (#[trigger] parents@[j]).0 as int, m))
                ==> final(registry).node(node_id.id as int).inputs@[m] == old(registry).node(node_id.id as int).inputs@[m],
            r is Ok ==> self.inputs_flowed(old(registry), node_id.id as int, edge_ids(parents@), final(registry).node(node_id.id as int)),
            r is Ok ==> self.outputs_taken(old(registry), node_id.id as int, edge_ids(parents@), final(registry)),
            r matches Err(e) ==> !(e.error matches NodeExecutionError::InputInjection(InjectionError::InputNotFound(Some(_)))),
            r is Ok ==> self.flow_ready(old(registry), node_id.id as int, edge_ids(parents@)),
            S::Value::obeys_eq_spec() && self.copies_unchanged(old(registry), node_id.id as int, edge_ids(parents@))
                ==> final(registry).node(node_id.id as int).input_changed == old(registry).node(node_id.id as int).input_changed,
            r is Ok && S::Value::obeys_eq_spec() ==> forall|j: int| 0 <= j < parents@.len()
                && #[trigger] self.copies_new_value(old(registry), node_id.id as int, edge_ids(parents@), j)
                ==> final(registry).node(node_id.id as int).input_changed,
            r is Ok ==> forall|j: int| 0 <= j < parents@.len()
                ==> #[trigger] self.edge_error(old(registry), node_id.id as int, edge_ids(parents@), j) is None,
            r matches Err(e) ==> exists|k: int| #[trigger] self.fails_at(old(registry), x, edge_ids(parents@), k, e, *top_trace, final(registry)),
    {
        proof {
            if self.flow_ready(old(registry), node_id.id as int, edge_ids(parents@)) {
                assert forall|j: int| 0 <= j < parents@.len()
                    implies self.edge_ready(registry, node_id.id as int, (#[trigger] parents@[j]).0 as int) by {
                    assert(edge_ids(parents@)[j] == parents@[j].0 as int);
                }
            }
        }
        let n = parents.len();
        let mut i: usize = 0;
        while i < n
            invariant
                self.wf(),
                self.ends_distinct_into(x),
                0 <= x < self.nodes().len(),
                node_id == self.nodes()[x],
                n == parents@.len(),
                forall|j: int| 0 <= j < parents@.len() ==> {
                    &&& (#[trigger] parents@[j]).0 < self.edges().len()
                    &&& self.edges()[parents@[j].0 as int].0 == parents@[j].1
                    &&& self.edges()[parents@[j].0 as int].1 == x
                },
                i <= n,
                registry.wf(),
                registry.same_layout(old(registry)),
                self.feeds_held(registry, x),
                forall|s: int| 0 <= s < old(registry).slots().len() && s != node_id.id && !(exists|j: int| 0 <= j < parents@.len()
                    && (#[trigger] self.nodes()[parents@[j].1 as int]).id == s)
                    ==> registry.slots()[s] == old(registry).slots()[s],
                forall|s: int| #[trigger] old(registry).holds(s) && s != node_id.id
                    ==> registry.node(s).input_changed == old(registry).node(s).input_changed,
                forall|s: int| #[trigger] old(registry).holds(s) && s != node_id.id ==> {
                    &&& registry.node(s).state == old(registry).node(s).state
                    &&& registry.node(s).inputs == old(registry).node(s).inputs
                    &&& registry.node(s).cache == old(registry).node(s).cache
                },
                forall|j: int| 0 <= j < i
                    ==> self.input_filled(registry, node_id.id as int, (#[trigger] parents@[j]).0 as int),
                old(registry).node(node_id.id as int).input_changed ==> registry.node(node_id.id as int).input_changed,
                registry.node(node_id.id as int).state == old(registry).node(node_id.id as int).state,
                registry.node(node_id.id as int).outputs == old(registry).node(node_id.id as int).outputs,
                registry.node(node_id.id as int).cache == old(registry).node(node_id.id as int).cache,
                (exists|j: int| 0 <= j < i
                    && self.moves_data(old(registry), self.nodes()[(#[trigger] parents@[j]).1 as int].id as int, parents@[j].0 as int))
                    ==> registry.node(node_id.id as int).input_changed,
                old(registry).wf(),
                self.flow_ready(old(registry), node_id.id as int, edge_ids(parents@)) ==> forall|j: int| i <= j < n
                    ==> self.edge_ready(registry, node_id.id as int, (#[trigger] parents@[j]).0 as int),
                forall|m: int| 0 <= m < old(registry).node(node_id.id as int).inputs@.len()
                    && !(exists|j: int| 0 <= j < i
                        && self.names_input(old(registry), node_id.id as int, (#[trigger] parents@[j]).0 as int, m))
                    ==> registry.node(node_id.id as int).inputs@[m] == old(registry).node(node_id.id as int).inputs@[m],
                forall|m: int| 0 <= m < old(registry).node(node_id.id as int).inputs@.len()
                    ==> match #[trigger] self.last_writer(old(registry), node_id.id as int, edge_ids(parents@), m, i as int) {
                        Some(j) => self.handed(old(registry), edge_ids(parents@)[j], registry.node(node_id.id as int).inputs@[m]),
                        None => registry.node(node_id.id as int).inputs@[m] == old(registry).node(node_id.id as int).inputs@[m],
                    },
                forall|s: int, k: int| s != node_id.id && old(registry).holds(s) && 0 <= k < old(registry).node(s).outputs@.len()
                    ==> #[trigger] registry.node(s).outputs@[k] == (if self.taken_before(old(registry), edge_ids(parents@), s, k, i as int) {
                        None
                    } else {
                        old(registry).node(s).outputs@[k]
                    }),
                forall|j: int| 0 <= j < i ==> self.edge_ready(old(registry), node_id.id as int, #[trigger] edge_ids(parents@)[j]),
                forall|j: int| 0 <= j < i ==> #[trigger] self.edge_error(old(registry), node_id.id as int, edge_ids(parents@), j) is None,
                S::Value::obeys_eq_spec() && self.copies_unchanged(old(registry), node_id.id as int, edge_ids(parents@))
                    ==> registry.node(node_id.id as int).input_changed == old(registry).node(node_id.id as int).input_changed,
                S::Value::obeys_eq_spec() ==> forall|j: int| 0 <= j < i
                    && #[trigger] self.copies_new_value(old(registry), node_id.id as int, edge_ids(parents@), j)
                    ==> registry.node(node_id.id as int).input_changed,
                forall|j1: int, j2: int, s: int, k: int| 0 <= j1 < j2 < i
                    && #[trigger] self.takes(old(registry), edge_ids(parents@)[j1], s, k)
                    ==> !#[trigger] self.takes(old(registry), edge_ids(parents@)[j2], s, k),
            decreases n - i,
        {
            let (edge_idx, parent_idx) = parents[i];
            let ghost p = parent_idx as int;
            proof {
                let e = edge_idx as int;
                assert(0 <= self.edges()[e].0 < self.nodes().len());
                assert(self.nodes()[self.edges()[e].0].id != self.nodes()[self.edges()[e].1].id);
            }
            let parent_id = match dag_node_weight(&self.dag, parent_idx) {
                Some(w) => w,
                None => {
                    return Err(ErrorWithTrace::from_error(NodeExecutionError::NodeNotFoundInGraph(
                        NodeNotFoundInGraphError(parent_idx))).with_trace(top_trace.duplicate()));
                },
            };
            let edge_info = match dag_edge_weight(&self.dag, edge_idx) {
                Some(w) => w,
                None => {
                    return Err(ErrorWithTrace::from_error(NodeExecutionError::EdgeNotFoundInGraph(
                        EdgeNotFoundInGraphError(edge_idx))).with_trace(top_trace.duplicate()));
                },
            };
            proof {
                assert(registry.holds(self.nodes()[x].id as int));
                let e = edge_idx as int;
                assert(self.edges()[e].0 == p && self.edges()[e].1 == x);
                assert(crate::dag::has_edge(self.edges(), p, x));
                assert(registry.holds(self.nodes()[p].id as int));
            }
            let ghost before = *registry;
            proof {
                assert(before.slots()[node_id.id as int] is Some);
                assert(before.slots()[parent_id.id as int] is Some);
                assert(node_id.id < before.slots().len() && parent_id.id < before.slots().len());
            }
            let pair = registry.get2_nodes_any_mut(node_id, parent_id);
            let (parent_node, child_node) = match pair {
                Ok(pair) => pair,
                Err(e) => {
                    return Err(ErrorWithTrace::from_error(NodeExecutionError::NodesNotFoundInRegistry(e))
                        .with_trace(top_trace.duplicate()));
                },
            };
            let flowed = parent_node.flow_data(child_node, edge_info.source_output, edge_info.target_input);
            proof {
                assert forall|s: int| #[trigger] registry.holds(s) implies registry.node(s).wf() by {
                    assert(before.holds(s));
                }
                assert forall|s: int| #[trigger] registry.holds(s) == old(registry).holds(s) by {
                    assert(before.holds(s) == old(registry).holds(s));
                }
                assert forall|s: int| #[trigger] registry.holds(s) implies registry.node(s).same_frame(&old(registry).node(s)) by {
                    assert(before.holds(s));
                    assert(before.node(s).same_frame(&old(registry).node(s)));
                }
                assert forall|y: int| 0 <= y < self.nodes().len() && crate::dag::has_edge(self.edges(), y, x)
                    implies registry.holds(#[trigger] self.nodes()[y].id as int) by {
                    assert(before.holds(self.nodes()[y].id as int));
                }
                assert(registry.holds(self.nodes()[x].id as int)) by {
                    assert(before.holds(self.nodes()[x].id as int));
                }
                assert forall|s: int| 0 <= s < old(registry).slots().len() && s != node_id.id && !(exists|j: int| 0 <= j < parents@.len()
                    && (#[trigger] self.nodes()[parents@[j].1 as int]).id == s)
                    implies registry.slots()[s] == old(registry).slots()[s] by {
                    assert(self.nodes()[parents@[i as int].1 as int].id == parent_id.id);
                    assert(s != parent_id.id);
                    assert(before.slots()[s] == old(registry).slots()[s]);
                    assert(registry.slots()[s] == before.slots()[s]);
                }
                assert forall|s: int| #[trigger] old(registry).holds(s) && s != node_id.id
                    implies registry.node(s).input_changed == old(registry).node(s).input_changed by {
                    assert(before.holds(s));
                }
                assert forall|s: int| #[trigger] old(registry).holds(s) && s != node_id.id implies {
                    &&& registry.node(s).state == old(registry).node(s).state
                    &&& registry.node(s).inputs == old(registry).node(s).inputs
                    &&& registry.node(s).cache == old(registry).node(s).cache
                } by {
                    assert(before.holds(s));
                }
            }
            match flowed {
                Ok(()) => {
                    proof {
                        let c = node_id.id as int;
                        let oc = before.node(c);
                        let nc = registry.node(c);
                        assert(nc.shape == oc.shape);
                        assert forall|j: int| 0 <= j < i + 1
                            implies self.input_filled(registry, c, (#[trigger] parents@[j]).0 as int) by {
                            let ej = parents@[j].0 as int;
                            if j < i {
                                assert(self.input_filled(&before, c, ej));
                                match self.edges()[ej].2.target_input {
                                    Some(f) => {
                                        crate::stage::lemma_find_named_from(oc.shape.inputs@, f.name@, 0);
                                        let k = find_named(oc.shape.inputs@, f.name@)->0;
                                        assert(before.holds(c) && oc.wf());
                                        assert(0 <= k < oc.inputs@.len());
                                        match edge_info.target_input {
                                            Some(g) => {
                                                let k2 = find_named(oc.shape.inputs@, g.name@)->0;
                                                if k != k2 {
                                                    assert(nc.inputs@[k] == oc.inputs@[k]);
                                                }
                                            },
                                            None => {},
                                        }
                                    },
                                    None => {},
                                }
                            } else {
                                assert(ej == edge_idx as int);
                            }
                        }
                        assert forall|m: int| 0 <= m < old(registry).node(c).inputs@.len()
                            && !(exists|j: int| 0 <= j < i + 1
                                && self.names_input(old(registry), c, (#[trigger] parents@[j]).0 as int, m))
                            implies nc.inputs@[m] == old(registry).node(c).inputs@[m] by {
                            assert(!self.names_input(old(registry), c, parents@[i as int].0 as int, m));
                            assert(before.node(c).inputs@[m] == old(registry).node(c).inputs@[m]);
                            assert(old(registry).holds(c));
                            assert(old(registry).node(c).shape == oc.shape);
                            assert(parents@[i as int].0 as int == edge_idx as int);
                            match edge_info.target_input {
                                None => {
                                    assert(nc == oc);
                                },
                                Some(g) => {
                                    let k = find_named(oc.shape.inputs@, g.name@)->0;
                                    assert(k != m);
                                    assert(old(registry).holds(c));
                                    assert(old(registry).node(c).wf());
                                    assert(before.holds(c));
                                    assert(oc.wf());
                                    assert(0 <= m < oc.inputs@.len());
                                    assert(nc.inputs@[m] == oc.inputs@[m]);
                                },
                            }
                        }
                        let pi = parent_id.id as int;
                        let op = before.node(pi);
                        let np = registry.node(pi);
                        let es = edge_ids(parents@);
                        let ei = edge_idx as int;
                        assert(es[i as int] == ei);
                        assert(self.source_slot(ei) == pi);
                        assert(old(registry).holds(pi) && before.holds(pi));
                        assert(old(registry).node(pi).shape == op.shape);
                        assert(old(registry).node(pi).reeval_rule == op.reeval_rule);
                        assert(old(registry).node(pi).shape == np.shape);
                        assert(old(registry).node(pi).wf() && op.wf() && np.wf());
                        let oldc = old(registry).node(c);
                        match edge_info.target_input {
                            None => {
                                assert(nc == oc && np == op);
                                assert forall|m: int| 0 <= m < oldc.inputs@.len()
                                    implies match #[trigger] self.last_writer(old(registry), c, es, m, i + 1) {
                                        Some(j) => self.handed(old(registry), es[j], nc.inputs@[m]),
                                        None => nc.inputs@[m] == oldc.inputs@[m],
                                    } by {
                                    assert(!self.names_input(old(registry), c, es[i as int], m));
                                    assert(self.last_writer(old(registry), c, es, m, i + 1) == self.last_writer(old(registry), c, es, m, i as int));
                                }
                                assert forall|s: int, k: int| s != c && old(registry).holds(s) && 0 <= k < old(registry).node(s).outputs@.len()
                                    implies #[trigger] registry.node(s).outputs@[k] == (if self.taken_before(old(registry), es, s, k, i + 1) {
                                        None
                                    } else {
                                        old(registry).node(s).outputs@[k]
                                    }) by {
                                    self.lemma_taken_step(old(registry), es, s, k, i as int);
                                    assert(!self.takes(old(registry), es[i as int], s, k));
                                    if s != pi {
                                        assert(registry.slots()[s] == before.slots()[s]);
                                    }
                                }
                            },
                            Some(g) => {
                                op.lemma_available_output(edge_info.source_output);
                                let k0 = op.available_output(edge_info.source_output)->0;
                                assert(0 <= k0 < op.outputs@.len());
                                assert(op.outputs@[k0] == (if self.taken_before(old(registry), es, pi, k0, i as int) {
                                    None
                                } else {
                                    old(registry).node(pi).outputs@[k0]
                                }));
                                assert(op.outputs@[k0] == old(registry).node(pi).outputs@[k0]);
                                assert(self.read_position(old(registry), ei) == Some(k0));
                                crate::stage::lemma_find_named_from(oc.shape.inputs@, g.name@, 0);
                                let ii = find_named(oc.shape.inputs@, g.name@)->0;
                                assert(self.handed(old(registry), ei, nc.inputs@[ii]));
                                assert forall|m: int| 0 <= m < oldc.inputs@.len()
                                    implies match #[trigger] self.last_writer(old(registry), c, es, m, i + 1) {
                                        Some(j) => self.handed(old(registry), es[j], nc.inputs@[m]),
                                        None => nc.inputs@[m] == oldc.inputs@[m],
                                    } by {
                                    assert(oldc.shape == oc.shape);
                                    if m == ii {
                                        assert(self.names_input(old(registry), c, es[i as int], m));
                                    } else {
                                        assert(!self.names_input(old(registry), c, es[i as int], m));
                                        assert(self.last_writer(old(registry), c, es, m, i + 1) == self.last_writer(old(registry), c, es, m, i as int));
                                        assert(old(registry).node(c).wf() && before.holds(c) && oc.wf());
                                        assert(nc.inputs@[m] == oc.inputs@[m]);
                                    }
                                }
                                assert forall|s: int, k: int| s != c && old(registry).holds(s) && 0 <= k < old(registry).node(s).outputs@.len()
                                    implies #[trigger] registry.node(s).outputs@[k] == (if self.taken_before(old(registry), es, s, k, i + 1) {
                                        None
                                    } else {
                                        old(registry).node(s).outputs@[k]
                                    }) by {
                                    self.lemma_taken_step(old(registry), es, s, k, i as int);
                                    if s != pi {
                                        assert(!self.takes(old(registry), es[i as int], s, k));
                                        assert(registry.slots()[s] == before.slots()[s]);
                                    } else if op.reeval_rule == ReevaluationRule::Move {
                                        assert(np.outputs@ == op.outputs@.update(k0, None));
                                        if k == k0 {
                                            assert(self.takes(old(registry), es[i as int], s, k));
                                        } else {
                                            assert(!self.takes(old(registry), es[i as int], s, k));
                                        }
                                    } else {
                                        assert(!self.takes(old(registry), es[i as int], s, k));
                                        assert(np.outputs == op.outputs);
                                    }
                                }
                            },
                        }
                        if self.flow_ready(old(registry), c, edge_ids(parents@)) {
                            assert forall|j: int| i + 1 <= j < n
                                implies self.edge_ready(registry, c, (#[trigger] parents@[j]).0 as int) by {
                                let ej = parents@[j].0 as int;
                                assert(edge_ids(parents@)[j] == ej);
                                assert(self.edge_ready(&before, c, ej));
                                let pj = self.nodes()[self.edges()[ej].0].id as int;
                                assert(self.edges()[ej].0 == parents@[j].1 as int);
                                assert(pj != c);
                                match self.edges()[ej].2.target_input {
                                    None => {},
                                    Some(f) => {
                                        if pj == pi {
                                            match edge_info.target_input {
                                                None => {},
                                                Some(g) => {
                                                    if op.reeval_rule == ReevaluationRule::Move {
                                                        let kj = op.available_output(self.edges()[ej].2.source_output)->0;
                                                        let ki = op.available_output(edge_info.source_output)->0;
                                                        assert(parents@[i as int].0 as int == edge_idx as int);
                                                        assert(self.nodes()[parents@[i as int].1 as int].id == self.nodes()[parents@[j].1 as int].id);
                                                        assert(old(registry).holds(pi));
                                                        assert(old(registry).node(pi).shape == op.shape);
                                                        assert(old(registry).node(pi).reeval_rule == op.reeval_rule);
                                                        op.lemma_available_output(self.edges()[ej].2.source_output);
                                                        op.lemma_available_output(edge_info.source_output);
                                                        assert(op.available_output(self.edges()[ej].2.source_output) is Some);
                                                        assert(0 <= kj < op.outputs@.len());
                                                        assert(edge_ids(parents@)[i as int] == edge_idx as int);
                                                        assert(kj != ki);
                                                        assert(np.outputs@ == op.outputs@.update(ki, None));
                                                        assert(np.outputs@[kj] == op.outputs@[kj]);
                                                    }
                                                },
                                            }
                                        } else {
                                            assert(registry.slots()[pj] == before.slots()[pj]);
                                        }
                                    },
                                }
                            }
                        }
                    }
                    proof {
                        let c = node_id.id as int;
                        let es = edge_ids(parents@);
                        let ei = edge_idx as int;
                        let pi = parent_id.id as int;
                        let op = before.node(pi);
                        let oc0 = before.node(c);
                        assert(es[i as int] == ei);
                        assert(self.source_slot(ei) == pi);
                        assert(old(registry).holds(pi) && before.holds(pi) && old(registry).holds(c));
                        assert(old(registry).node(pi).shape == op.shape);
                        assert(old(registry).node(pi).reeval_rule == op.reeval_rule);
                        assert(old(registry).node(c).shape == before.node(c).shape);
                        assert(old(registry).node(pi).wf() && op.wf());
                        match edge_info.target_input {
                            None => {
                                assert(self.edge_ready(old(registry), c, ei));
                                assert forall|s2: int, k: int| !self.takes(old(registry), es[i as int], s2, k) by {}
                                assert(self.edge_error(old(registry), c, es, i as int) is None);
                            },
                            Some(g) => {
                                op.lemma_available_output(edge_info.source_output);
                                let k0 = op.available_output(edge_info.source_output)->0;
                                assert(op.outputs@[k0] == (if self.taken_before(old(registry), es, pi, k0, i as int) {
                                    None
                                } else {
                                    old(registry).node(pi).outputs@[k0]
                                }));
                                assert(!self.taken_before(old(registry), es, pi, k0, i as int));
                                assert(old(registry).node(pi).available_output(edge_info.source_output) == Some(k0));
                                assert(self.edge_ready(old(registry), c, ei));
                                assert(self.edge_error(old(registry), c, es, i as int) is None);
                                if S::Value::obeys_eq_spec() && self.copies_unchanged(old(registry), c, es) {
                                    assert(self.edges()[es[i as int]].2.target_input is Some);
                                    crate::stage::lemma_find_named_from(oc0.shape.inputs@, g.name@, 0);
                                    let m = find_named(old(registry).node(c).shape.inputs@, g.name@)->0;
                                    assert(!(exists|j: int| 0 <= j < i
                                        && self.names_input(old(registry), c, (#[trigger] parents@[j]).0 as int, m))) by {
                                        if exists|j: int| 0 <= j < i
                                            && self.names_input(old(registry), c, (#[trigger] parents@[j]).0 as int, m) {
                                            let j = choose|j: int| 0 <= j < i
                                                && self.names_input(old(registry), c, (#[trigger] parents@[j]).0 as int, m);
                                            assert(es[j] == parents@[j].0 as int);
                                            assert(j != i);
                                        }
                                    }
                                    assert(old(registry).node(c).wf());
                                    assert(oc0.inputs@[m] == old(registry).node(c).inputs@[m]);
                                    assert(op.reeval_rule != ReevaluationRule::Move);
                                    assert(op.outputs@[k0] == old(registry).node(pi).outputs@[k0]);
                                }
                                assert forall|j1: int| 0 <= j1 < i implies !self.takes(old(registry), es[j1], pi, k0) by {
                                    if self.takes(old(registry), es[j1], pi, k0) {
                                        assert(self.taken_before(old(registry), es, pi, k0, i as int));
                                    }
                                }
                                assert(self.read_position(old(registry), ei) == Some(k0));
                                if S::Value::obeys_eq_spec() && self.copies_new_value(old(registry), c, es, i as int) {
                                    crate::stage::lemma_find_named_from(oc0.shape.inputs@, g.name@, 0);
                                    let m = find_named(old(registry).node(c).shape.inputs@, g.name@)->0;
                                    assert(!(exists|j: int| 0 <= j < i
                                        && self.names_input(old(registry), c, (#[trigger] parents@[j]).0 as int, m))) by {
                                        if exists|j: int| 0 <= j < i
                                            && self.names_input(old(registry), c, (#[trigger] parents@[j]).0 as int, m) {
                                            let j = choose|j: int| 0 <= j < i
                                                && self.names_input(old(registry), c, (#[trigger] parents@[j]).0 as int, m);
                                            assert(es[j] == parents@[j].0 as int);
                                        }
                                    }
                                    assert(old(registry).node(c).wf());
                                    assert(oc0.inputs@[m] == old(registry).node(c).inputs@[m]);
                                    assert(op.reeval_rule != ReevaluationRule::Move);
                                    assert(op.outputs@[k0] == old(registry).node(pi).outputs@[k0]);
                                    assert(copy_marks_changed(oc0, m, op.outputs@[k0].unwrap()));
                                    assert(registry.node(c).input_changed);
                                }
                            },
                        }
                        assert forall|j: int| 0 <= j < i + 1 implies self.edge_ready(old(registry), c, #[trigger] es[j]) by {}
                        assert forall|j: int| 0 <= j < i + 1 implies #[trigger] self.edge_error(old(registry), c, es, j) is None by {}
                        assert forall|j1: int, j2: int, s2: int, k: int| 0 <= j1 < j2 < i + 1
                            && #[trigger] self.takes(old(registry), es[j1], s2, k)
                            implies !#[trigger] self.takes(old(registry), es[j2], s2, k) by {
                            if j2 == i && self.takes(old(registry), es[j2], s2, k) {
                                assert(s2 == pi);
                            }
                        }
                    }
                },
                Err(e) => {
                    let mut trace = top_trace.duplicate();
                    trace.highlight_node(parent_id);
                    trace.highlight_node(node_id);
                    trace.highlight_connection(parent_id, edge_info.source_output, node_id, edge_info.target_input);
                    let err = ErrorWithTrace::from_error(NodeExecutionError::InputInjection(e)).with_trace(trace);
                    proof {
                        assert(parents@[i as int].0 as int == edge_idx as int);
                        assert(self.highlights_flow(Some(trace), *top_trace, parents@[i as int].0 as int, node_id));
                        let c = node_id.id as int;
                        let es = edge_ids(parents@);
                        let ei = edge_idx as int;
                        let pi = parent_id.id as int;
                        let op = before.node(pi);
                        let oc = before.node(c);
                        assert(es[i as int] == ei);
                        assert(self.source_slot(ei) == pi);
                        assert(old(registry).holds(pi) && before.holds(pi) && old(registry).holds(c) && before.holds(c));
                        assert(old(registry).node(pi).shape == op.shape);
                        assert(old(registry).node(pi).reeval_rule == op.reeval_rule);
                        assert(old(registry).node(c).shape == oc.shape);
                        assert(old(registry).node(pi).wf() && op.wf() && old(registry).node(c).wf() && oc.wf());
                        op.lemma_available_output(edge_info.source_output);
                        match edge_info.source_output {
                            None => crate::stage::lemma_find_named_from(op.shape.outputs@, crate::stage::unnamed_output_name(), 0),
                            Some(f) => crate::stage::lemma_find_named_from(op.shape.outputs@, f.name@, 0),
                        }
                        match output_position(*op.shape, edge_info.source_output) {
                            Some(k0) => {
                                if k0 < op.outputs@.len() {
                                    assert(pi != c);
                                    assert(k0 < old(registry).node(pi).outputs@.len());
                                    assert(op.outputs@[k0] == (if self.taken_before(old(registry), es, pi, k0, i as int) {
                                        None
                                    } else {
                                        old(registry).node(pi).outputs@[k0]
                                    }));
                                }
                                assert(self.read_position(old(registry), ei) == Some(k0));
                            },
                            None => {},
                        }
                        assert(self.edge_error(old(registry), c, es, i as int) == Some(e));
                        let np = registry.node(pi);
                        assert forall|s2: int, o: int| s2 != c && old(registry).holds(s2) && 0 <= o < old(registry).node(s2).outputs@.len()
                            implies #[trigger] registry.node(s2).outputs@[o] == (if self.taken_before(old(registry), es, s2, o, i as int)
                                || (self.edge_error(old(registry), c, es, i as int) matches Some(InjectionError::OutputTypeMismatch(_))
                                    && self.takes(old(registry), es[i as int], s2, o)) {
                                None
                            } else {
                                old(registry).node(s2).outputs@[o]
                            }) by {
                            if s2 != pi {
                                assert(registry.slots()[s2] == before.slots()[s2]);
                                assert(!self.takes(old(registry), es[i as int], s2, o));
                            } else {
                                if self.takes(old(registry), es[i as int], s2, o) {
                                    assert(Some(o) == output_position(*op.shape, edge_info.source_output));
                                }
                            }
                        }
                        assert(self.fails_at(old(registry), x, es, i as int, err, *top_trace, registry));
                    }
                    return Err(err);
                },
            }
            i = i + 1;
        }
        proof {
            let c = node_id.id as int;
            let es = edge_ids(parents@);
            assert forall|j1: int, j2: int|
                0 <= j1 < es.len() && 0 <= j2 < es.len() && j1 != j2
                && self.edges()[#[trigger] es[j1]].2.target_input is Some
                && self.edges()[#[trigger] es[j2]].2.target_input is Some
                && self.nodes()[self.edges()[es[j1]].0].id == self.nodes()[self.edges()[es[j2]].0].id
                && old(registry).node(self.nodes()[self.edges()[es[j1]].0].id as int).reeval_rule == ReevaluationRule::Move
                implies output_position(*old(registry).node(self.nodes()[self.edges()[es[j1]].0].id as int).shape,
                        self.edges()[es[j1]].2.source_output)
                    != output_position(*old(registry).node(self.nodes()[self.edges()[es[j1]].0].id as int).shape,
                        self.edges()[es[j2]].2.source_output) by {
                assert(self.edge_ready(old(registry), c, es[j1]));
                assert(self.edge_ready(old(registry), c, es[j2]));
                let s1 = self.source_slot(es[j1]);
                let pn = old(registry).node(s1);
                pn.lemma_available_output(self.edges()[es[j1]].2.source_output);
                pn.lemma_available_output(self.edges()[es[j2]].2.source_output);
                if output_position(*pn.shape, self.edges()[es[j1]].2.source_output)
                    == output_position(*pn.shape, self.edges()[es[j2]].2.source_output) {
                    let k = pn.available_output(self.edges()[es[j1]].2.source_output)->0;
                    assert(self.takes(old(registry), es[j1], s1, k));
                    assert(self.takes(old(registry), es[j2], s1, k));
                    if j1 < j2 {
                        assert(!self.takes(old(registry), es[j2], s1, k));
                    } else {
                        assert(!self.takes(old(registry), es[j1], s1, k));
                    }
                }
            }
            assert(self.no_shared_move(old(registry), es));
        }
        Ok(())
    }

    /// What holds of the list of parents of `x` that `parent_list` returns.
    pub open spec fn parents_of(&self, x: int, parents: Seq<(usize, usize)>) -> bool {
        &&& parents.len() == incoming(self.edges(), x).len()
        &&& forall|j: int| 0 <= j < parents.len() ==>
            (#[trigger] parents[j]).0 as int == incoming(self.edges(), x)[j].0
                && parents[j].1 as int == incoming(self.edges(), x)[j].1
        &&& forall|j: int| 0 <= j < parents.len() ==> {
            &&& (#[trigger] parents[j]).0 < self.edges().len()
            &&& self.edges()[parents[j].0 as int].0 == parents[j].1
            &&& self.edges()[parents[j].0 as int].1 == x
        }
    }

    proof fn lemma_upstream_of_parent(&self, p: int, x: int)
        requires
            self.wf(),
            crate::dag::has_edge(self.edges(), p, x),
        ensures
            forall|s: int| #[trigger] self.upstream_slot(p, s) ==> self.upstream_slot(x, s),
    {
        assert forall|s: int| #[trigger] self.upstream_slot(p, s) implies self.upstream_slot(x, s) by {
            let z = choose|z: int| 0 <= z < self.nodes().len() && reach(self.edges(), z, p) && (#[trigger] self.nodes()[z]).id == s;
            lemma_reach_append(self.edges(), z, p, x);
        }
    }

    /// `post` is what the execution of dag node `x` left of it, starting from
    /// `pre`: every parent of `x` was settled (executed) in `pre`, the data
    /// of its incoming edges flowed into it, giving `mid`, and `mid` was
    /// then evaluated exactly when it needed it.
    pub open spec fn ran_after_parents<S: Stage>(&self, pre: &Registry<S>, x: int, post: Node<S>) -> bool {
        &&& forall|j: int| 0 <= j < incoming(self.edges(), x).len()
            ==> self.settled(pre, (#[trigger] incoming(self.edges(), x)[j]).1)
        &&& exists|mid: Node<S>| #[trigger] self.flowed_node(pre, x, mid) && {
            &&& mid.needs_eval() ==> mid.eval_outcome(&post, post.outputs@)
            &&& !mid.needs_eval() ==> post == mid
        }
    }

    /// One step of execution at dag node `x`, from `r` to `r2`: every
    /// incoming edge could carry its data (`flow_ready`), the data flowed
    /// into the node as `r` holds it, and the node then ran (`ran_node`),
    /// all its inputs holding a value when it was evaluated; of every other
    /// node only the outputs that the flow took changed (`outputs_taken`).
    pub open spec fn stepped<S: Stage>(&self, r: &Registry<S>, x: int, r2: &Registry<S>) -> bool {
        let c = self.nodes()[x].id as int;
        &&& r2.same_layout(r)
        &&& forall|s: int| #[trigger] r.holds(s) && s != c ==> {
            &&& r2.node(s).state == r.node(s).state
            &&& r2.node(s).inputs == r.node(s).inputs
            &&& r2.node(s).cache == r.node(s).cache
            &&& r2.node(s).input_changed == r.node(s).input_changed
        }
        &&& self.flow_ready(r, c, self.incoming_ids(x))
        &&& self.outputs_taken(r, c, self.incoming_ids(x), r2)
        &&& exists|mid: Node<S>| #[trigger] self.flowed_node(r, x, mid) && mid.ran_node(&r2.node(c))
            && (mid.needs_eval() ==> self.inputs_covered(r, c, self.incoming_ids(x)))
    }

    /// A failed step at dag node `x`, from `r` to `r2`: the node was not
    /// evaluated; its outputs, state and cache are as `r` holds them.
    pub open spec fn failed_step<S: Stage>(&self, r: &Registry<S>, x: int, r2: &Registry<S>) -> bool {
        let c = self.nodes()[x].id as int;
        &&& r2.same_layout(r)
        &&& r2.node(c).outputs == r.node(c).outputs
        &&& r2.node(c).state == r.node(c).state
        &&& r2.node(c).cache == r.node(c).cache
    }

    /// What executing dag node `x` from registry `r` may give, looking at
    /// most `d` generations deep: `res` holds the registry it leaves, `Ok`
    /// on success and `Err` on failure. Each parent (the newest edge first)
    /// is executed in turn from the registry the one before it left
    /// (`exec_chain`), and a failing parent fails `x`; then the data flows
    /// and the node runs (`stepped`), which fails only where the node is not
    /// ready for it (`node_ready`), leaving it unevaluated (`failed_step`).
    #[verifier::opaque]
    pub open spec fn exec_from<S: Stage>(&self, r: Registry<S>, x: int, res: Result<Registry<S>, Registry<S>>, d: nat) -> bool
        decreases d, 0nat,
    {
        if d == 0 {
            false
        } else {
            exists|rs: Seq<Registry<S>>| self.exec_chain(rs, x, res, (d - 1) as nat) && #[trigger] rs[0] == r
        }
    }

    /// `rs` are the registries between the parents' executions in
    /// `exec_from`: it starts before the first parent, and each later one is
    /// what the parent before it left.
    pub open spec fn exec_chain<S: Stage>(&self, rs: Seq<Registry<S>>, x: int, res: Result<Registry<S>, Registry<S>>, d: nat) -> bool
        decreases d, 1nat,
    {
        let inc = incoming(self.edges(), x);
        &&& 1 <= rs.len() <= inc.len() + 1
        &&& forall|i: int| 0 <= i < rs.len() - 1 ==> self.exec_from(rs[i], (#[trigger] inc[i]).1, Ok(rs[i + 1]), d)
        &&& forall|i: int, s: int| 0 <= i < rs.len() - 1 && 0 <= s < rs[i].slots().len()
            && !#[trigger] self.upstream_slot(inc[i].1, s) ==> rs[i + 1].slots()[s] == rs[i].slots()[s]
        &&& if rs.len() <= inc.len() {
            &&& res is Err
            &&& self.exec_from(rs.last(), inc[rs.len() - 1].1, res, d)
        } else {
            match res {
                Ok(r2) => self.stepped(&rs.last(), x, &r2),
                Err(r2) => !self.node_ready(&rs.last(), x) && self.failed_step(&rs.last(), x, &r2),
            }
        }
    }

    proof fn lemma_exec_deeper<S: Stage>(&self, r: Registry<S>, x: int, res: Result<Registry<S>, Registry<S>>, d: nat, e: nat)
        requires
            self.exec_from(r, x, res, d),
            d <= e,
        ensures
            self.exec_from(r, x, res, e),
        decreases d,
    {
        reveal(Graph::exec_from);
        let rs = choose|rs: Seq<Registry<S>>| self.exec_chain(rs, x, res, (d - 1) as nat) && #[trigger] rs[0] == r;
        let inc = incoming(self.edges(), x);
        assert forall|i: int| 0 <= i < rs.len() - 1 implies self.exec_from(rs[i], (#[trigger] inc[i]).1, Ok(rs[i + 1]), (e - 1) as nat) by {
            self.lemma_exec_deeper(rs[i], inc[i].1, Ok(rs[i + 1]), (d - 1) as nat, (e - 1) as nat);
        }
        if rs.len() <= inc.len() {
            self.lemma_exec_deeper(rs.last(), inc[rs.len() - 1].1, res, (d - 1) as nat, (e - 1) as nat);
        }
        assert(self.exec_chain(rs, x, res, (e - 1) as nat));
    }

    /// `rs` are the registries between the executions of the listed urgent
    /// nodes: each is executed in turn (`exec_from`) from the registry that
    /// the one before it left, the first from `rs[0]`; `res` is what the
    /// last leaves, `Ok` on success and `Err` when one fails, after which no
    /// other is executed.
    pub open spec fn exec_in_turn<S: Stage>(&self, rs: Seq<Registry<S>>, urgent: Seq<usize>, res: Result<Registry<S>, Registry<S>>) -> bool {
        &&& 1 <= rs.len() <= urgent.len() + 1
        &&& forall|i: int| 0 <= i < rs.len() - 1 ==> self.exec_from(rs[i], (#[trigger] urgent[i]) as int, Ok(rs[i + 1]),
            self.depth(urgent[i] as int))
        &&& if rs.len() <= urgent.len() {
            &&& res is Err
            &&& self.exec_from(rs.last(), urgent[rs.len() - 1] as int, res, self.depth(urgent[rs.len() - 1] as int))
        } else {
            res == Ok::<Registry<S>, Registry<S>>(rs.last())
        }
    }

    /// The depth to which `exec_from` looks for dag node `x`: one more than
    /// the number of its ancestors.
    pub open spec fn depth(&self, x: int) -> nat {
        ancestors(self.edges(), self.nodes().len() as int, x).len() + 1
    }

    /// Among the first `n` parents of dag node `x` (its incoming edges, in
    /// order), none but those that are the `j`-th parent itself has the
    /// registry slot of the `j`-th parent upstream of it.
    pub open spec fn alone_parent(&self, x: int, j: int, n: int) -> bool {
        let inc = incoming(self.edges(), x);
        forall|k: int| 0 <= k < n && inc[k].1 != inc[j].1
            ==> !#[trigger] self.upstream_slot(inc[k].1, self.nodes()[inc[j].1].id as int)
    }

    /// Each parent of dag node `x` that no other parent has upstream is, in
    /// `pre`, as its own execution left it, and so on up to `d` generations
    /// back: the data that flows from it along an edge into `x` is what that
    /// execution left in its outputs, from data its own parents' executions
    /// left.
    pub open spec fn fed_by_parents<S: Stage>(&self, pre: &Registry<S>, x: int, d: nat) -> bool
        decreases d,
    {
        if d == 0 {
            true
        } else {
            let inc = incoming(self.edges(), x);
            forall|j: int| 0 <= j < inc.len() && #[trigger] self.alone_parent(x, j, inc.len() as int)
                ==> exists|pre_p: Registry<S>| #[trigger] self.ran_after_parents(&pre_p, inc[j].1,
                    pre.node(self.nodes()[inc[j].1].id as int)) && self.fed_by_parents(&pre_p, inc[j].1, (d - 1) as nat)
        }
    }

    proof fn lemma_fed_fewer<S: Stage>(&self, pre: &Registry<S>, x: int, d: nat, e: nat)
        requires
            self.fed_by_parents(pre, x, d),
            e <= d,
        ensures
            self.fed_by_parents(pre, x, e),
        decreases e,
    {
        if e > 0 {
            let inc = incoming(self.edges(), x);
            assert forall|j: int| 0 <= j < inc.len() && #[trigger] self.alone_parent(x, j, inc.len() as int)
                implies exists|pre_p: Registry<S>| #[trigger] self.ran_after_parents(&pre_p, inc[j].1,
                    pre.node(self.nodes()[inc[j].1].id as int)) && self.fed_by_parents(&pre_p, inc[j].1, (e - 1) as nat) by {
                let pre_p = choose|pre_p: Registry<S>| #[trigger] self.ran_after_parents(&pre_p, inc[j].1,
                    pre.node(self.nodes()[inc[j].1].id as int)) && self.fed_by_parents(&pre_p, inc[j].1, (d - 1) as nat);
                self.lemma_fed_fewer(&pre_p, inc[j].1, (d - 1) as nat, (e - 1) as nat);
            }
        }
    }

    /// Dag node `x` was executed: from some registry, after its parents,
    /// with its incoming data flowed in from what the parents' executions
    /// left (back through every generation), and evaluated when it needed
    /// it.
    pub open spec fn ran<S: Stage>(&self, x: int) -> bool {
        exists|pre: Registry<S>, post: Node<S>| #[trigger] self.ran_after_parents(&pre, x, post)
            && self.fed_by_parents(&pre, x, self.nodes().len())
    }

    proof fn lemma_ran<S: Stage>(&self, pre: &Registry<S>, x: int, post: Node<S>)
        requires
            self.ran_after_parents(pre, x, post),
            self.fed_by_parents(pre, x, self.nodes().len()),
        ensures
            self.ran::<S>(x),
    {
    }

    /// No parent of dag node `x` has the registry slot of `x` upstream of
    /// it: executing the parents leaves the node of `x` alone.
    pub open spec fn clear_of_parents(&self, x: int) -> bool {
        forall|j: int| 0 <= j < incoming(self.edges(), x).len()
            ==> !self.upstream_slot((#[trigger] incoming(self.edges(), x)[j]).1, self.nodes()[x].id as int)
    }

    /// `post` is what executing dag node `x` left of it, from `pre` (see
    /// `ran_after_parents`), where the node entered as it was in `start`
    /// whenever executing its parents could not reach it.
    pub open spec fn ran_from<S: Stage>(&self, start: &Registry<S>, pre: &Registry<S>, x: int, post: Node<S>) -> bool {
        &&& self.ran_after_parents(pre, x, post)
        &&& self.fed_by_parents(pre, x, self.nodes().len())
        &&& self.clear_of_parents(x) ==> pre.node(self.nodes()[x].id as int) == start.node(self.nodes()[x].id as int)
    }

    /// None of the first `n` listed urgent nodes but the `j`-th has the
    /// registry slot of the `j`-th upstream of it.
    pub open spec fn alone_among(&self, urgent: Seq<usize>, j: int, n: int) -> bool {
        forall|k: int| 0 <= k < n && k != j
            ==> !#[trigger] self.upstream_slot(urgent[k] as int, self.nodes()[urgent[j] as int].id as int)
    }

    /// Every dag node upstream of `x`, `x` included, was executed (`ran`).
    pub open spec fn ran_upstream<S: Stage>(&self, x: int) -> bool {
        forall|z: int| 0 <= z < self.nodes().len() && reach(self.edges(), z, x) ==> #[trigger] self.ran::<S>(z)
    }

    /// Dag node `z` takes no data: its stage declares no input and no edge
    /// into it carries data.
    pub open spec fn dataless<S: Stage>(&self, reg: &Registry<S>, z: int) -> bool {
        &&& reg.node(self.nodes()[z].id as int).shape.inputs@.len() == 0
        &&& forall|e: int| 0 <= e < self.edges().len() && (#[trigger] self.edges()[e]).1 == z
            ==> self.edges()[e].2.target_input is None
    }

    /// No node upstream of dag node `x` (`x` included) takes data.
    pub open spec fn quiet_upstream<S: Stage>(&self, reg: &Registry<S>, x: int) -> bool {
        forall|z: int| 0 <= z < self.nodes().len() && reach(self.edges(), z, x) ==> #[trigger] self.dataless(reg, z)
    }

    proof fn lemma_quiet_parent<S: Stage>(&self, reg: &Registry<S>, p: int, x: int)
        requires
            self.wf(),
            self.quiet_upstream(reg, x),
            crate::dag::has_edge(self.edges(), p, x),
        ensures
            self.quiet_upstream(reg, p),
    {
        assert forall|z: int| 0 <= z < self.nodes().len() && reach(self.edges(), z, p) implies #[trigger] self.dataless(reg, z) by {
            lemma_reach_append(self.edges(), z, p, x);
        }
    }

    proof fn lemma_quiet_transfer<S: Stage>(&self, a: &Registry<S>, b: &Registry<S>, x: int)
        requires
            self.quiet_upstream(a, x),
            b.same_layout(a),
            self.held_by(a),
        ensures
            self.quiet_upstream(b, x),
    {
        assert forall|z: int| 0 <= z < self.nodes().len() && reach(self.edges(), z, x) implies #[trigger] self.dataless(b, z) by {
            assert(self.dataless(a, z));
            assert(a.holds(self.nodes()[z].id as int));
            assert(b.holds(self.nodes()[z].id as int));
        }
    }

    proof fn lemma_quiet_ready<S: Stage>(&self, reg: &Registry<S>, x: int)
        requires
            self.wf(),
            0 <= x < self.nodes().len(),
            reg.wf(),
            self.held_by(reg),
            self.quiet_upstream(reg, x),
        ensures
            self.node_ready(reg, x),
    {
        lemma_reach_refl(self.edges(), x);
        assert(self.dataless(reg, x));
        lemma_incoming(self.edges(), x);
        let es = self.incoming_ids(x);
        let c = self.nodes()[x].id as int;
        assert forall|j: int| 0 <= j < es.len() implies self.edges()[#[trigger] es[j]].2.target_input is None by {
            let (e, p) = incoming(self.edges(), x)[j];
            assert(es[j] == e);
            assert(self.edges()[e].1 == x);
        }
        assert(reg.holds(c));
        assert(reg.node(c).wf());
    }

    /// Executes a single node's stage within the graph: first, recursively,
    /// every parent (the most recently connected first), then the data flow
    /// from the parents into the node, then the node itself when it needs
    /// evaluating. Only nodes upstream of the node are touched; after
    /// success none of them has a changed input waiting, each of them was
    /// executed so (`ran_upstream`), and the node is as its own execution
    /// left it (`ran_from`). A failure reports its trace as `reports_trace`
    /// says.
    fn execute_node<S: Stage>(&self, idx: usize, top_trace: &GraphTrace, registry: &mut Registry<S>)
        -> (r: Result<(), ErrorWithTrace<NodeExecutionError>>)
        requires
            self.wf(),
            self.ends_distinct_upstream(idx as int),
            idx < self.nodes().len(),
            old(registry).wf(),
            self.held_by(old(registry)),
        ensures
            final(registry).wf(),
            final(registry).same_layout(old(registry)),
            forall|i: int| 0 <= i < old(registry).slots().len() && !(#[trigger] self.upstream_slot(idx as int, i))
                ==> final(registry).slots()[i] == old(registry).slots()[i],
            r is Ok ==> self.settled(final(registry), idx as int),
            r matches Err(e) ==> (e.error matches NodeExecutionError::InputInjection(_)) && e.graph_trace is Some,
            self.quiet_upstream(old(registry), idx as int) ==> r is Ok,
            r is Ok ==> exists|pre: Registry<S>| #[trigger] self.ran_from(old(registry), &pre, idx as int,
                final(registry).node(self.nodes()[idx as int].id as int))
                && self.outputs_taken(&pre, self.nodes()[idx as int].id as int, self.incoming_ids(idx as int), final(registry)),
            r is Ok ==> self.ran_upstream::<S>(idx as int),
            r matches Err(e) ==> self.reports_trace(e, *top_trace),
            r is Ok ==> self.exec_from(*old(registry), idx as int, Ok(*final(registry)), self.depth(idx as int)),
            r is Err ==> self.exec_from(*old(registry), idx as int, Err(*final(registry)), self.depth(idx as int)),
            r is Err && self.clear_of_parents(idx as int) ==> {
                let c = self.nodes()[idx as int].id as int;
                &&& final(registry).node(c).outputs == old(registry).node(c).outputs
                &&& final(registry).node(c).state == old(registry).node(c).state
                &&& final(registry).node(c).cache == old(registry).node(c).cache
            },
        decreases ancestors(self.edges(), self.nodes().len() as int, idx as int).len(),
    {
        let node_id = match self.get_node_id_from_node_index(idx) {
            Ok(n) => n,
            Err(e) => {
                return Err(ErrorWithTrace::from_error(NodeExecutionError::NodeNotFoundInGraph(e))
                    .with_trace(top_trace.duplicate()));
            },
        };
        let parents = self.parents(idx);
        proof {
            lemma_reach_refl(self.edges(), idx as int);
        }
        proof {
            reveal(Graph::exec_from);
        }
        let ghost dd: nat = (self.depth(idx as int) - 1) as nat;
        let ghost mut rs: Seq<Registry<S>> = seq![*registry];
        let n = parents.len();
        let mut i: usize = 0;
        while i < n
            invariant
                dd == (self.depth(idx as int) - 1) as nat,
                rs.len() == i + 1,
                rs[0] == *old(registry),
                rs[i as int] == *registry,
                forall|j: int| 0 <= j < i ==> self.exec_from(rs[j], (#[trigger] incoming(self.edges(), idx as int)[j]).1,
                    Ok(rs[j + 1]), dd),
                forall|j: int, s: int| 0 <= j < i && 0 <= s < rs[j].slots().len()
                    && !#[trigger] self.upstream_slot(incoming(self.edges(), idx as int)[j].1, s)
                    ==> rs[j + 1].slots()[s] == rs[j].slots()[s],
                self.wf(),
                self.ends_distinct_upstream(idx as int),
                idx < self.nodes().len(),
                node_id == self.nodes()[idx as int],
                n == parents@.len(),
                self.parents_of(idx as int, parents@),
                i <= n,
                registry.wf(),
                registry.same_layout(old(registry)),
                self.held_by(registry),
                forall|s: int| 0 <= s < old(registry).slots().len() && !(#[trigger] self.upstream_slot(idx as int, s))
                    ==> registry.slots()[s] == old(registry).slots()[s],
                forall|j: int| 0 <= j < i ==> self.settled(registry, (#[trigger] parents@[j]).1 as int),
                self.held_by(old(registry)),
                self.quiet_upstream(old(registry), idx as int) ==> self.quiet_upstream(registry, idx as int),
                forall|j: int| 0 <= j < i ==> self.ran_upstream::<S>((#[trigger] parents@[j]).1 as int),
                self.clear_of_parents(idx as int) ==> registry.slots()[node_id.id as int] == old(registry).slots()[node_id.id as int],
                forall|j: int| 0 <= j < i && #[trigger] self.alone_parent(idx as int, j, i as int)
                    ==> exists|pre_p: Registry<S>| #[trigger] self.ran_after_parents(&pre_p, parents@[j].1 as int,
                        registry.node(self.nodes()[parents@[j].1 as int].id as int))
                        && self.fed_by_parents(&pre_p, parents@[j].1 as int, (self.nodes().len() - 1) as nat),
            decreases n - i,
        {
            let parent_idx = parents[i].1;
            proof {
                let e = parents@[i as int].0 as int;
                assert(crate::dag::has_edge(self.edges(), parent_idx as int, idx as int));
                if self.quiet_upstream(old(registry), idx as int) {
                    self.lemma_quiet_parent(registry, parent_idx as int, idx as int);
                }
                self.lemma_distinct_parent(parent_idx as int, idx as int);
                assert(0 <= self.edges()[e].0 < self.nodes().len());
                lemma_parent_fewer_ancestors(self.edges(), self.nodes().len() as int, parent_idx as int, idx as int);
                self.lemma_upstream_of_parent(parent_idx as int, idx as int);
            }
            let ghost before = *registry;
            let res = self.execute_node(parent_idx, top_trace, registry);
            proof {
                if self.clear_of_parents(idx as int) {
                    lemma_incoming(self.edges(), idx as int);
                    assert(incoming(self.edges(), idx as int)[i as int].1 == parent_idx as int);
                    assert(!self.upstream_slot(parent_idx as int, node_id.id as int));
                    assert(registry.slots()[node_id.id as int] == before.slots()[node_id.id as int]);
                }
                assert forall|s: int| 0 <= s < old(registry).slots().len() && !(#[trigger] self.upstream_slot(idx as int, s))
                    implies registry.slots()[s] == old(registry).slots()[s] by {
                    if self.upstream_slot(parent_idx as int, s) {
                        assert(self.upstream_slot(idx as int, s));
                    }
                    assert(registry.slots()[s] == before.slots()[s]);
                }
            }
            proof {
                lemma_incoming(self.edges(), idx as int);
                let inc = incoming(self.edges(), idx as int);
                assert(inc[i as int].1 == parent_idx as int);
                let res_reg = if res is Ok { Ok(*registry) } else { Err::<Registry<S>, Registry<S>>(*registry) };
                self.lemma_exec_deeper(before, parent_idx as int, res_reg, self.depth(parent_idx as int), dd);
                if res is Err {
                    reveal(Graph::exec_from);
                    assert(rs.last() == before);
                    assert(self.exec_chain(rs, idx as int, res_reg, dd));
                    assert(self.exec_from(*old(registry), idx as int, res_reg, self.depth(idx as int)));
                }
            }
            if res.is_err() {
                return res;
            }
            proof {
                rs = rs.push(*registry);
                let inc0 = incoming(self.edges(), idx as int);
                assert forall|j: int| 0 <= j < i + 1 implies self.exec_from(rs[j], (#[trigger] inc0[j]).1,
                    Ok(rs[j + 1]), dd) by {
                    if j < i {
                        assert(rs[j] == rs.drop_last()[j] && rs[j + 1] == rs.drop_last()[j + 1]);
                    }
                }
                assert forall|j: int, s: int| 0 <= j < i + 1 && 0 <= s < rs[j].slots().len()
                    && !#[trigger] self.upstream_slot(inc0[j].1, s)
                    implies rs[j + 1].slots()[s] == rs[j].slots()[s] by {
                    if j < i {
                        assert(rs[j] == rs.drop_last()[j] && rs[j + 1] == rs.drop_last()[j + 1]);
                    } else {
                        assert(inc0[j].1 == parent_idx as int);
                        assert(rs[j] == before);
                    }
                }
            }
            proof {
                lemma_incoming(self.edges(), idx as int);
                let inc = incoming(self.edges(), idx as int);
                let psl = self.nodes()[parent_idx as int].id as int;
                assert(inc[i as int].1 == parent_idx as int);
                let pre_i = choose|pre: Registry<S>| #[trigger] self.ran_from(&before, &pre, parent_idx as int,
                    registry.node(psl)) && self.outputs_taken(&pre, psl, self.incoming_ids(parent_idx as int), registry);
                assert(self.ran_after_parents(&pre_i, parent_idx as int, registry.node(psl)));
                self.lemma_fed_fewer(&pre_i, parent_idx as int, self.nodes().len(), (self.nodes().len() - 1) as nat);
                assert forall|j: int| 0 <= j < i + 1 && #[trigger] self.alone_parent(idx as int, j, i + 1)
                    implies exists|pre_p: Registry<S>| #[trigger] self.ran_after_parents(&pre_p, parents@[j].1 as int,
                        registry.node(self.nodes()[parents@[j].1 as int].id as int))
                        && self.fed_by_parents(&pre_p, parents@[j].1 as int, (self.nodes().len() - 1) as nat) by {
                    let pj = parents@[j].1 as int;
                    assert(inc[j].1 == pj);
                    if pj == parent_idx as int {
                        assert(self.ran_after_parents(&pre_i, pj, registry.node(self.nodes()[pj].id as int)));
                    } else {
                        assert(j < i);
                        let sl = self.nodes()[pj].id as int;
                        assert(!self.upstream_slot(inc[i as int].1, sl));
                        assert(self.alone_parent(idx as int, j, i as int));
                        assert(old(registry).holds(sl));
                        assert(registry.slots()[sl] == before.slots()[sl]);
                    }
                }
                if self.quiet_upstream(old(registry), idx as int) {
                    self.lemma_quiet_transfer(&before, registry, idx as int);
                }
                assert forall|j: int| 0 <= j < i + 1 implies self.settled(registry, (#[trigger] parents@[j]).1 as int) by {
                    if j < i {
                        let pj = parents@[j].1 as int;
                        assert(self.settled(&before, pj));
                        assert forall|z: int| 0 <= z < self.nodes().len() && reach(self.edges(), z, pj)
                            implies !registry.node((#[trigger] self.nodes()[z]).id as int).input_changed by {
                            let sl = self.nodes()[z].id as int;
                            assert(registry.holds(sl));
                            if self.upstream_slot(parent_idx as int, sl) {
                                let z2 = choose|z2: int| 0 <= z2 < self.nodes().len() && reach(self.edges(), z2, parent_idx as int)
                                    && (#[trigger] self.nodes()[z2]).id == sl;
                                assert(!registry.node(self.nodes()[z2].id as int).input_changed);
                            } else {
                                assert(registry.slots()[sl] == before.slots()[sl]);
                                assert(!before.node(self.nodes()[z].id as int).input_changed);
                            }
                        }
                    }
                }
            }
            i = i + 1;
        }
        let ghost after_parents = *registry;
        proof {
            if self.quiet_upstream(old(registry), idx as int) {
                self.lemma_quiet_ready(registry, idx as int);
            }
        }
        let done = self.flow_and_run(registry, idx, top_trace);
        proof {
            if done is Ok {
                assert forall|j: int| 0 <= j < incoming(self.edges(), idx as int).len()
                    implies self.settled(&after_parents, (#[trigger] incoming(self.edges(), idx as int)[j]).1) by {
                    assert(incoming(self.edges(), idx as int)[j].1 == parents@[j].1 as int);
                    assert(self.settled(&after_parents, parents@[j].1 as int));
                }
                assert(self.ran_after_parents(&after_parents, idx as int, registry.node(node_id.id as int)));
                assert(self.fed_by_parents(&after_parents, idx as int, self.nodes().len())) by {
                    let inc = incoming(self.edges(), idx as int);
                    assert forall|j: int| 0 <= j < inc.len() && #[trigger] self.alone_parent(idx as int, j, inc.len() as int)
                        implies exists|pre_p: Registry<S>| #[trigger] self.ran_after_parents(&pre_p, inc[j].1,
                            after_parents.node(self.nodes()[inc[j].1].id as int))
                            && self.fed_by_parents(&pre_p, inc[j].1, (self.nodes().len() - 1) as nat) by {
                        assert(inc[j].1 == parents@[j].1 as int);
                        assert(self.alone_parent(idx as int, j, n as int));
                    }
                }
                self.lemma_ran(&after_parents, idx as int, registry.node(node_id.id as int));
                assert(self.ran_from(old(registry), &after_parents, idx as int, registry.node(node_id.id as int)));
                lemma_incoming_complete(self.edges(), idx as int);
                assert forall|z: int| 0 <= z < self.nodes().len() && reach(self.edges(), z, idx as int)
                    implies #[trigger] self.ran::<S>(z) by {
                    if z != idx {
                        lemma_reach_through_parent(self.edges(), z, idx as int);
                        let e = choose|e: int| 0 <= e < self.edges().len() && (#[trigger] self.edges()[e]).1 == idx
                            && reach(self.edges(), z, self.edges()[e].0);
                        let inc = incoming(self.edges(), idx as int);
                        let j = choose|j: int| 0 <= j < inc.len() && (#[trigger] inc[j]).0 == e;
                        assert(parents@[j].1 as int == self.edges()[e].0);
                        assert(self.ran_upstream::<S>(parents@[j].1 as int));
                    }
                }
            }
        }
        proof {
            lemma_reach_refl(self.edges(), idx as int);
            assert forall|s: int| 0 <= s < old(registry).slots().len() && !(#[trigger] self.upstream_slot(idx as int, s))
                implies registry.slots()[s] == old(registry).slots()[s] by {
                assert(s != node_id.id);
                if exists|p: int| 0 <= p < self.nodes().len() && crate::dag::has_edge(self.edges(), p, idx as int)
                    && (#[trigger] self.nodes()[p]).id == s {
                    let p = choose|p: int| 0 <= p < self.nodes().len() && crate::dag::has_edge(self.edges(), p, idx as int)
                        && (#[trigger] self.nodes()[p]).id == s;
                    lemma_reach_refl(self.edges(), p);
                    lemma_reach_append(self.edges(), p, p, idx as int);
                    assert(self.upstream_slot(idx as int, s));
                }
                assert(registry.slots()[s] == after_parents.slots()[s]);
            }
        }
        match done {
            Ok(()) => {
                proof {
                    lemma_incoming_complete(self.edges(), idx as int);
                    assert forall|z: int| 0 <= z < self.nodes().len() && reach(self.edges(), z, idx as int)
                        implies !registry.node((#[trigger] self.nodes()[z]).id as int).input_changed by {
                        let sl = self.nodes()[z].id as int;
                        if sl != node_id.id {
                            assert(z != idx);
                            lemma_reach_through_parent(self.edges(), z, idx as int);
                            let e = choose|e: int| 0 <= e < self.edges().len() && (#[trigger] self.edges()[e]).1 == idx
                                && reach(self.edges(), z, self.edges()[e].0);
                            let inc = incoming(self.edges(), idx as int);
                            let j = choose|j: int| 0 <= j < inc.len() && (#[trigger] inc[j]).0 == e;
                            let pj = parents@[j].1 as int;
                            assert(pj == self.edges()[e].0);
                            assert(self.settled(&after_parents, parents@[j].1 as int));
                            assert(after_parents.holds(sl));
                            assert(!after_parents.node(sl).input_changed);
                        }
                    }
                }
                Ok(())
            },
            Err(e) => {
                proof {
                    if !(e.error matches NodeExecutionError::InputInjection(InjectionError::InputNotFound(Some(_)))) {
                        lemma_incoming(self.edges(), idx as int);
                        let es = self.incoming_ids(idx as int);
                        let j = choose|j: int| 0 <= j < es.len()
                            && self.highlights_flow(e.graph_trace, *top_trace, #[trigger] es[j], self.nodes()[idx as int]);
                        let inc = incoming(self.edges(), idx as int);
                        assert(es[j] == inc[j].0);
                        assert(self.highlights_flow(e.graph_trace, *top_trace, es[j], self.nodes()[self.edges()[es[j]].1]));
                    }
                }
                Err(e)
            },
        }
    }

    /// The parents of dag node `idx`: each incoming edge with its source
    /// node, the most recently connected first.
    pub fn parents(&self, idx: usize) -> (r: Vec<(usize, usize)>)
        requires
            self.wf(),
            idx < self.nodes().len(),
        ensures
            self.parents_of(idx as int, r@),
    {
        let parents = parent_list(&self.dag, idx);
        proof {
            lemma_incoming(self.edges(), idx as int);
            let inc = incoming(self.edges(), idx as int);
            assert forall|j: int| 0 <= j < parents@.len() implies {
                &&& (#[trigger] parents@[j]).0 < self.edges().len()
                &&& self.edges()[parents@[j].0 as int].0 == parents@[j].1
                &&& self.edges()[parents@[j].0 as int].1 == idx
            } by {
                let (e, p) = inc[j];
                assert(parents@[j].0 as int == e && parents@[j].1 as int == p);
            }
        }
        parents
    }

    /// `t` is the trace `top` with the failed flow along edge `e` into the
    /// node `c` highlighted: the edge's source node, the node, and the
    /// connection.
    pub open spec fn highlights_flow(&self, t: Option<GraphTrace>, top: GraphTrace, e: int, c: NodeReflection) -> bool {
        let p = self.nodes()[self.edges()[e].0];
        let info = self.edges()[e].2;
        &&& t matches Some(tr)
        &&& tr.nodes@ == mark_node(mark_node(top.nodes@, p), c)
        &&& tr.connections@ == mark_connection(top.connections@, p, info.source_output, c, info.target_input)
    }

    /// `t` is the trace of this graph over the nodes of `reg`, as
    /// `generate_trace` makes it.
    pub open spec fn trace_of<S: Stage>(&self, reg: &Registry<S>, t: GraphTrace) -> bool {
        &&& t.nodes@ == trace_nodes_upto(self.index_map(), reg, self.index_map().len() as int)
        &&& t.connections@ == trace_connections_upto(self.index_map(), self.edges(), self.edges().len() as int)
    }

    /// How a failed execution reports where it failed: the failure of a
    /// stage's own evaluation carries the trace `top` as it is; a failed
    /// flow carries `top` with that flow, along an edge into its target
    /// node, highlighted.
    pub open spec fn reports_trace(&self, err: ErrorWithTrace<NodeExecutionError>, top: GraphTrace) -> bool {
        if err.error matches NodeExecutionError::InputInjection(InjectionError::InputNotFound(Some(_))) {
            Self::same_trace(err.graph_trace, top)
        } else {
            exists|e: int| 0 <= e < self.edges().len()
                && #[trigger] self.highlights_flow(err.graph_trace, top, e, self.nodes()[self.edges()[e].1])
        }
    }

    /// `t` is the trace `top` as it is.
    pub open spec fn same_trace(t: Option<GraphTrace>, top: GraphTrace) -> bool {
        t matches Some(tr) && tr.nodes@ == top.nodes@ && tr.connections@ == top.connections@
    }

    /// `mid` is what the node at dag index `x` can be once the data of its
    /// incoming edges has flowed into it from `reg`: the same stage, state,
    /// outputs and cache; each input holds what the last incoming edge
    /// naming it handed (`inputs_flowed`), and every other input is as it
    /// was; the change mark is kept, data moved in sets it, a copy of a
    /// value the node did not hold sets it (`copies_new_value`), and flows
    /// that change nothing (`copies_unchanged`) leave it as it was (both
    /// with a lawful `==`).
    pub open spec fn flowed_node<S: Stage>(&self, reg: &Registry<S>, x: int, mid: Node<S>) -> bool {
        let c = self.nodes()[x].id as int;
        let es = self.incoming_ids(x);
        let before = reg.node(c);
        &&& mid.same_frame(&before)
        &&& mid.state == before.state
        &&& mid.outputs == before.outputs
        &&& mid.cache == before.cache
        &&& mid.inputs@.len() == before.inputs@.len()
        &&& forall|j: int| 0 <= j < es.len() ==> match self.edges()[#[trigger] es[j]].2.target_input {
            None => true,
            Some(f) => find_named(before.shape.inputs@, f.name@) matches Some(k) && mid.inputs@[k] is Some,
        }
        &&& forall|m: int| 0 <= m < before.inputs@.len()
            && !(exists|j: int| 0 <= j < es.len() && self.names_input(reg, c, #[trigger] es[j], m))
            ==> mid.inputs@[m] == before.inputs@[m]
        &&& before.input_changed ==> mid.input_changed
        &&& (exists|j: int| 0 <= j < es.len()
            && self.moves_data(reg, self.nodes()[self.edges()[#[trigger] es[j]].0].id as int, es[j]))
            ==> mid.input_changed
        &&& self.inputs_flowed(reg, c, es, mid)
        &&& S::Value::obeys_eq_spec() && self.copies_unchanged(reg, c, es) ==> mid.input_changed == before.input_changed
        &&& S::Value::obeys_eq_spec() ==> forall|j: int| 0 <= j < es.len() && #[trigger] self.copies_new_value(reg, c, es, j)
            ==> mid.input_changed
    }

    /// The data flow from every parent of dag node `idx` into it, without
    /// evaluating it; the registry need hold only the node and its parents.
    /// Only the node's slot and its parents' slots change, and no change
    /// mark but the node's. It succeeds when every incoming edge
    /// can carry its data (`flow_ready`); after success the node is as
    /// `flowed_node` says. A failed flow is an injection error whose trace
    /// highlights it.
    pub fn flow_into<S: Stage>(&self, registry: &mut Registry<S>, idx: usize, top_trace: &GraphTrace)
        -> (r: Result<(), ErrorWithTrace<NodeExecutionError>>)
        requires
            self.wf(),
            self.ends_distinct_into(idx as int),
            idx < self.nodes().len(),
            old(registry).wf(),
            self.feeds_held(old(registry), idx as int),
        ensures
            final(registry).wf(),
            final(registry).same_layout(old(registry)),
            forall|s: int| 0 <= s < old(registry).slots().len() && s != self.nodes()[idx as int].id
                && !(exists|p: int| 0 <= p < self.nodes().len() && crate::dag::has_edge(self.edges(), p, idx as int)
                    && (#[trigger] self.nodes()[p]).id == s)
                ==> final(registry).slots()[s] == old(registry).slots()[s],
            forall|s: int| #[trigger] old(registry).holds(s) && s != self.nodes()[idx as int].id
                ==> final(registry).node(s).input_changed == old(registry).node(s).input_changed,
            self.flow_ready(old(registry), self.nodes()[idx as int].id as int, self.incoming_ids(idx as int)) ==> r is Ok,
            r is Ok ==> self.flowed_node(old(registry), idx as int, final(registry).node(self.nodes()[idx as int].id as int)),
            r is Ok ==> self.outputs_taken(old(registry), self.nodes()[idx as int].id as int, self.incoming_ids(idx as int), final(registry)),
            r matches Err(e) ==> (e.error matches NodeExecutionError::InputInjection(_))
                && exists|j: int| 0 <= j < self.incoming_ids(idx as int).len()
                    && self.highlights_flow(e.graph_trace, *top_trace, #[trigger] self.incoming_ids(idx as int)[j], self.nodes()[idx as int]),
            r is Ok ==> self.flow_ready(old(registry), self.nodes()[idx as int].id as int, self.incoming_ids(idx as int)),
            r matches Err(e) ==> exists|k: int| #[trigger] self.fails_at(old(registry), idx as int, self.incoming_ids(idx as int), k, e,
                *top_trace, final(registry)),
    {
        let node_id = match self.get_node_id_from_node_index(idx) {
            Ok(n) => n,
            Err(e) => {
                return Err(ErrorWithTrace::from_error(NodeExecutionError::NodeNotFoundInGraph(e))
                    .with_trace(top_trace.duplicate()));
            },
        };
        let parents = self.parents(idx);
        let flowed = self.flow_data(registry, top_trace, Ghost(idx as int), node_id, &parents);
        proof {
            lemma_incoming(self.edges(), idx as int);
            assert forall|s: int| 0 <= s < old(registry).slots().len() && s != node_id.id
                && !(exists|p: int| 0 <= p < self.nodes().len() && crate::dag::has_edge(self.edges(), p, idx as int)
                    && (#[trigger] self.nodes()[p]).id == s)
                implies registry.slots()[s] == old(registry).slots()[s] by {
                if exists|j: int| 0 <= j < parents@.len() && (#[trigger] self.nodes()[parents@[j].1 as int]).id == s {
                    let j = choose|j: int| 0 <= j < parents@.len() && (#[trigger] self.nodes()[parents@[j].1 as int]).id == s;
                    let pj = parents@[j].1 as int;
                    assert(crate::dag::has_edge(self.edges(), pj, idx as int));
                    assert(0 <= self.edges()[parents@[j].0 as int].0 < self.nodes().len());
                }
            }
            let c = node_id.id as int;
            let es = edge_ids(parents@);
            assert(es =~= self.incoming_ids(idx as int));
            if flowed is Err {
                let e = flowed->Err_0;
                let j = choose|j: int| 0 <= j < parents@.len()
                    && self.highlights_flow(e.graph_trace, *top_trace, (#[trigger] parents@[j]).0 as int, node_id);
                assert(self.incoming_ids(idx as int)[j] == parents@[j].0 as int);
            } else {
                let mid = registry.node(c);
                assert(old(registry).holds(c));
                assert(registry.holds(c));
                assert(mid.shape == old(registry).node(c).shape);
                assert forall|j: int| 0 <= j < es.len() implies match self.edges()[#[trigger] es[j]].2.target_input {
                    None => true,
                    Some(f) => find_named(old(registry).node(c).shape.inputs@, f.name@) matches Some(k) && mid.inputs@[k] is Some,
                } by {
                    assert(es[j] == parents@[j].0 as int);
                    assert(self.input_filled(registry, c, parents@[j].0 as int));
                }
                assert forall|m: int| 0 <= m < old(registry).node(c).inputs@.len()
                    && !(exists|j: int| 0 <= j < es.len() && self.names_input(old(registry), c, #[trigger] es[j], m))
                    implies mid.inputs@[m] == old(registry).node(c).inputs@[m] by {
                    if exists|j: int| 0 <= j < parents@.len()
                        && self.names_input(old(registry), c, (#[trigger] parents@[j]).0 as int, m) {
                        let j = choose|j: int| 0 <= j < parents@.len()
                            && self.names_input(old(registry), c, (#[trigger] parents@[j]).0 as int, m);
                        assert(es[j] == parents@[j].0 as int);
                    }
                }
                if exists|j: int| 0 <= j < es.len()
                    && self.moves_data(old(registry), self.nodes()[self.edges()[#[trigger] es[j]].0].id as int, es[j]) {
                    let j = choose|j: int| 0 <= j < es.len()
                        && self.moves_data(old(registry), self.nodes()[self.edges()[#[trigger] es[j]].0].id as int, es[j]);
                    assert(es[j] == parents@[j].0 as int);
                    assert(self.edges()[es[j]].0 == parents@[j].1 as int);
                    assert(self.moves_data(old(registry), self.nodes()[(parents@[j]).1 as int].id as int, parents@[j].0 as int));
                }
                assert(registry.node(c).wf());
                assert(self.flowed_node(old(registry), idx as int, mid));
            }
        }
        flowed
    }

    /// The work on dag node `idx` once its parents are done: the data flow
    /// from every parent into the node, then the node's evaluation when it
    /// needs it. Only the node's slot and its parents' slots change, and no
    /// change mark but the node's; after success the node has none. It
    /// succeeds when the node is ready (`node_ready`): each incoming edge
    /// can carry its data, and every input then holds a value.
    pub fn flow_and_run<S: Stage>(&self, registry: &mut Registry<S>, idx: usize, top_trace: &GraphTrace)
        -> (r: Result<(), ErrorWithTrace<NodeExecutionError>>)
        requires
            self.wf(),
            self.ends_distinct_into(idx as int),
            idx < self.nodes().len(),
            old(registry).wf(),
            self.held_by(old(registry)),
        ensures
            final(registry).wf(),
            final(registry).same_layout(old(registry)),
            forall|s: int| 0 <= s < old(registry).slots().len() && s != self.nodes()[idx as int].id
                && !(exists|p: int| 0 <= p < self.nodes().len() && crate::dag::has_edge(self.edges(), p, idx as int)
                    && (#[trigger] self.nodes()[p]).id == s)
                ==> final(registry).slots()[s] == old(registry).slots()[s],
            forall|s: int| #[trigger] old(registry).holds(s) && s != self.nodes()[idx as int].id
                ==> final(registry).node(s).input_changed == old(registry).node(s).input_changed,
            r is Ok ==> !final(registry).node(self.nodes()[idx as int].id as int).input_changed,
            self.node_ready(old(registry), idx as int) ==> r is Ok,
            r matches Err(e) ==> if e.error matches NodeExecutionError::InputInjection(InjectionError::InputNotFound(Some(_))) {
                Self::same_trace(e.graph_trace, *top_trace)
            } else {
                exists|j: int| 0 <= j < self.incoming_ids(idx as int).len()
                    && self.highlights_flow(e.graph_trace, *top_trace, #[trigger] self.incoming_ids(idx as int)[j], self.nodes()[idx as int])
            },
            r is Ok ==> self.outputs_taken(old(registry), self.nodes()[idx as int].id as int, self.incoming_ids(idx as int), final(registry)),
            r is Ok ==> exists|mid: Node<S>| #[trigger] self.flowed_node(old(registry), idx as int, mid) && {
                let after = final(registry).node(self.nodes()[idx as int].id as int);
                &&& mid.needs_eval() ==> mid.eval_outcome(&after, after.outputs@)
                &&& !mid.needs_eval() ==> after == mid
            },
            r matches Err(e) ==> (e.error matches NodeExecutionError::InputInjection(_)) && e.graph_trace is Some,
            forall|s: int| #[trigger] old(registry).holds(s) && s != self.nodes()[idx as int].id ==> {
                &&& final(registry).node(s).state == old(registry).node(s).state
                &&& final(registry).node(s).inputs == old(registry).node(s).inputs
                &&& final(registry).node(s).cache == old(registry).node(s).cache
            },
            r is Ok ==> exists|mid: Node<S>| #[trigger] self.flowed_node(old(registry), idx as int, mid)
                && mid.ran_node(&final(registry).node(self.nodes()[idx as int].id as int))
                && (mid.needs_eval() ==> self.inputs_covered(old(registry), self.nodes()[idx as int].id as int, self.incoming_ids(idx as int))),
            r is Ok ==> self.flow_ready(old(registry), self.nodes()[idx as int].id as int, self.incoming_ids(idx as int)),
            r matches Err(e) ==> (e.error matches NodeExecutionError::InputInjection(InjectionError::InputNotFound(Some(_))))
                || exists|k: int| #[trigger] self.fails_at(old(registry), idx as int, self.incoming_ids(idx as int), k, e,
                    *top_trace, final(registry)),
            r is Err ==> {
                let c = self.nodes()[idx as int].id as int;
                &&& final(registry).node(c).outputs == old(registry).node(c).outputs
                &&& final(registry).node(c).state == old(registry).node(c).state
                &&& final(registry).node(c).cache == old(registry).node(c).cache
            },
    {
        let node_id = match self.get_node_id_from_node_index(idx) {
            Ok(n) => n,
            Err(e) => {
                return Err(ErrorWithTrace::from_error(NodeExecutionError::NodeNotFoundInGraph(e))
                    .with_trace(top_trace.duplicate()));
            },
        };
        let parents = self.parents(idx);
        let flowed = self.flow_data(registry, top_trace, Ghost(idx as int), node_id, &parents);
        let ghost after_flow = *registry;
        proof {
            lemma_incoming(self.edges(), idx as int);
            assert forall|s: int| 0 <= s < old(registry).slots().len() && s != node_id.id
                && !(exists|p: int| 0 <= p < self.nodes().len() && crate::dag::has_edge(self.edges(), p, idx as int)
                    && (#[trigger] self.nodes()[p]).id == s)
                implies registry.slots()[s] == old(registry).slots()[s] by {
                if exists|j: int| 0 <= j < parents@.len() && (#[trigger] self.nodes()[parents@[j].1 as int]).id == s {
                    let j = choose|j: int| 0 <= j < parents@.len() && (#[trigger] self.nodes()[parents@[j].1 as int]).id == s;
                    let pj = parents@[j].1 as int;
                    assert(crate::dag::has_edge(self.edges(), pj, idx as int));
                    assert(0 <= self.edges()[parents@[j].0 as int].0 < self.nodes().len());
                }
            }
        }
        proof {
            assert(edge_ids(parents@) =~= self.incoming_ids(idx as int));
            if flowed is Err {
                let e = flowed->Err_0;
                let j = choose|j: int| 0 <= j < parents@.len()
                    && self.highlights_flow(e.graph_trace, *top_trace, (#[trigger] parents@[j]).0 as int, node_id);
                assert(self.incoming_ids(idx as int)[j] == parents@[j].0 as int);
            }
        }
        if flowed.is_err() {
            return flowed;
        }
        proof {
            assert(registry.holds(node_id.id as int));
            let c = node_id.id as int;
            let es = edge_ids(parents@);
            assert(es =~= self.incoming_ids(idx as int));
            if self.node_ready(old(registry), idx as int) {
                assert(old(registry).holds(c));
                assert(old(registry).node(c).shape == registry.node(c).shape);
                assert forall|m: int| 0 <= m < registry.node(c).inputs@.len()
                    implies (#[trigger] registry.node(c).inputs@[m]) is Some by {
                    assert(old(registry).node(c).wf() && registry.node(c).wf());
                    if exists|j: int| 0 <= j < parents@.len()
                        && self.names_input(old(registry), c, (#[trigger] parents@[j]).0 as int, m) {
                        let j = choose|j: int| 0 <= j < parents@.len()
                            && self.names_input(old(registry), c, (#[trigger] parents@[j]).0 as int, m);
                        assert(self.input_filled(registry, c, parents@[j].0 as int));
                    } else {
                        if !(old(registry).node(c).inputs@[m] is Some) {
                            let j = choose|j: int| 0 <= j < es.len() && self.names_input(old(registry), c, #[trigger] es[j], m);
                            assert(es[j] == parents@[j].0 as int);
                        }
                    }
                }
                crate::node::lemma_first_missing(registry.node(c).inputs@, 0);
            }
        }
        let ran = match registry.get_node_any_mut(node_id) {
            Some(node) => node.run(),
            None => {
                return Err(ErrorWithTrace::from_error(NodeExecutionError::NodesNotFoundInRegistry(
                    NodesNotFoundError::single(node_id))).with_trace(top_trace.duplicate()));
            },
        };
        proof {
            assert forall|s: int| #[trigger] registry.holds(s) implies registry.node(s).wf() by {
                assert(after_flow.holds(s));
            }
            assert forall|s: int| #[trigger] registry.holds(s) == old(registry).holds(s) by {
                assert(after_flow.holds(s) == old(registry).holds(s));
            }
            assert forall|s: int| #[trigger] registry.holds(s) implies registry.node(s).same_frame(&old(registry).node(s)) by {
                assert(after_flow.holds(s));
                assert(after_flow.node(s).same_frame(&old(registry).node(s)));
            }
            assert forall|s: int| 0 <= s < old(registry).slots().len() && s != node_id.id
                && !(exists|p: int| 0 <= p < self.nodes().len() && crate::dag::has_edge(self.edges(), p, idx as int)
                    && (#[trigger] self.nodes()[p]).id == s)
                implies registry.slots()[s] == old(registry).slots()[s] by {
                assert(registry.slots()[s] == after_flow.slots()[s]);
            }
            assert forall|s: int| #[trigger] old(registry).holds(s) && s != node_id.id
                implies registry.node(s).input_changed == old(registry).node(s).input_changed by {
                assert(registry.slots()[s] == after_flow.slots()[s]);
            }
            assert forall|s: int| #[trigger] old(registry).holds(s) && s != node_id.id implies {
                &&& registry.node(s).state == old(registry).node(s).state
                &&& registry.node(s).inputs == old(registry).node(s).inputs
                &&& registry.node(s).cache == old(registry).node(s).cache
            } by {
                assert(registry.slots()[s] == after_flow.slots()[s]);
            }
        }
        proof {
            let c = node_id.id as int;
            let mid = after_flow.node(c);
            let es = edge_ids(parents@);
            assert(es =~= self.incoming_ids(idx as int));
            assert(old(registry).holds(c));
            assert forall|j: int| 0 <= j < es.len() implies match self.edges()[#[trigger] es[j]].2.target_input {
                None => true,
                Some(f) => find_named(old(registry).node(c).shape.inputs@, f.name@) matches Some(k) && mid.inputs@[k] is Some,
            } by {
                assert(es[j] == parents@[j].0 as int);
                assert(self.input_filled(&after_flow, c, parents@[j].0 as int));
            }
            assert forall|m: int| 0 <= m < old(registry).node(c).inputs@.len()
                && !(exists|j: int| 0 <= j < es.len() && self.names_input(old(registry), c, #[trigger] es[j], m))
                implies mid.inputs@[m] == old(registry).node(c).inputs@[m] by {
                if exists|j: int| 0 <= j < parents@.len()
                    && self.names_input(old(registry), c, (#[trigger] parents@[j]).0 as int, m) {
                    let j = choose|j: int| 0 <= j < parents@.len()
                        && self.names_input(old(registry), c, (#[trigger] parents@[j]).0 as int, m);
                    assert(es[j] == parents@[j].0 as int);
                }
            }
            if exists|j: int| 0 <= j < es.len()
                && self.moves_data(old(registry), self.nodes()[self.edges()[#[trigger] es[j]].0].id as int, es[j]) {
                let j = choose|j: int| 0 <= j < es.len()
                    && self.moves_data(old(registry), self.nodes()[self.edges()[#[trigger] es[j]].0].id as int, es[j]);
                assert(es[j] == parents@[j].0 as int);
                assert(self.edges()[es[j]].0 == parents@[j].1 as int);
                assert(self.moves_data(old(registry), self.nodes()[(parents@[j]).1 as int].id as int, parents@[j].0 as int));
            }
            assert(after_flow.node(c).wf());
            assert(self.flowed_node(old(registry), idx as int, mid));
            if ran is Ok {
                assert(mid.ran_node(&registry.node(c)));
                if mid.needs_eval() {
                    crate::node::lemma_first_missing(mid.inputs@, 0);
                    assert forall|m: int| 0 <= m < old(registry).node(c).inputs@.len() implies
                        (#[trigger] old(registry).node(c).inputs@[m]) is Some
                        || exists|j: int| 0 <= j < es.len() && self.names_input(old(registry), c, #[trigger] es[j], m) by {
                        assert(old(registry).node(c).wf() && mid.wf());
                        assert(mid.inputs@[m] is Some);
                    }
                    assert(self.inputs_covered(old(registry), c, self.incoming_ids(idx as int)));
                }
            }
        }
        match ran {
            Ok(_) => Ok(()),
            Err(e) => {
                Err(ErrorWithTrace::from_error(NodeExecutionError::InputInjection(e)).with_trace(top_trace.duplicate()))
            },
        }
    }

    /// Execute the graph in its current state, performing the entire flow
    /// of operations: every urgent node, in the order of the index map,
    /// after (recursively) the nodes it depends on. Every graph node must be
    /// in the registry, else nothing is evaluated and the error names the
    /// first one missing. Otherwise the run is one that `exec_in_turn`
    /// describes, from the registry as it was: each node runs from the
    /// registry that the runs before it left, its data flowing in from its
    /// parents' nodes as they then stand. It fails only where a node is not
    /// ready (`node_ready`) when its turn comes, and then leaves that node
    /// unevaluated; where it succeeds, every flow could carry its data and
    /// every node it evaluated had all its inputs. Nodes upstream of no urgent node are left alone;
    /// after success no node upstream of an urgent node has a changed input
    /// waiting, and each urgent node and every node upstream of it was
    /// executed after its parents, with the data that their executions left
    /// flowed in, and evaluated when it needed it (`ran_upstream`); an
    /// urgent node that no other urgent node has upstream (`alone_among`)
    /// is left as its own execution made it, and, when its parents cannot
    /// reach its slot, that execution started from the node as it was
    /// before the call (`ran_from`): its state carries over from one
    /// execution to the next. A graph whose
    /// urgent nodes take no data upstream (`quiet_upstream`) always runs. An
    /// error carries the trace of the graph as it was at the start: as it
    /// is for a missing node or a failed evaluation, with the failed flow
    /// highlighted otherwise (`reports_trace`). The registry keeps its nodes
    /// and their stages. No edge that runs may join two nodes with one
    /// registry index: both ends would be borrowed from the same slot.
    #[verifier::rlimit(60)]
    pub fn execute<S: Stage>(&self, registry: &mut Registry<S>) -> (r: Result<(), ErrorWithTrace<NodeExecutionError>>)
        requires
            self.wf(),
            forall|j: int| 0 <= j < urgent_upto(self.index_map(), old(registry), self.index_map().len() as int).len()
                ==> self.ends_distinct_upstream(#[trigger] urgent_upto(self.index_map(), old(registry), self.index_map().len() as int)[j] as int),
            old(registry).wf(),
        ensures
            final(registry).wf(),
            final(registry).same_layout(old(registry)),
            match first_absent_from(self.index_map(), old(registry), 0) {
                Some(k) => {
                    &&& final(registry).slots() == old(registry).slots()
                    &&& r matches Err(e) && e.graph_trace is Some
                        && (e.error matches NodeExecutionError::NodesNotFoundInRegistry(nf) && nf.0@ == seq![self.index_map()[k].0])
                        && exists|top: GraphTrace| #[trigger] self.trace_of(old(registry), top) && Self::same_trace(e.graph_trace, top)
                },
                None => {
                    let urgent = urgent_upto(self.index_map(), old(registry), self.index_map().len() as int);
                    &&& forall|i: int| 0 <= i < old(registry).slots().len()
                        && !(exists|j: int| 0 <= j < urgent.len() && #[trigger] self.upstream_slot(urgent[j] as int, i))
                        ==> final(registry).slots()[i] == old(registry).slots()[i]
                    &&& urgent.len() == 0 ==> r is Ok && final(registry).slots() == old(registry).slots()
                    &&& (forall|j: int| 0 <= j < urgent.len() ==> self.quiet_upstream(old(registry), #[trigger] urgent[j] as int))
                        ==> r is Ok
                    &&& r is Ok ==> forall|j: int| 0 <= j < urgent.len() ==> self.settled(final(registry), #[trigger] urgent[j] as int)
                    &&& r is Ok ==> forall|j: int| 0 <= j < urgent.len() ==> self.ran_upstream::<S>(#[trigger] urgent[j] as int)
                    &&& r is Ok ==> forall|j: int| 0 <= j < urgent.len() && #[trigger] self.alone_among(urgent, j, urgent.len() as int)
                        ==> exists|pre: Registry<S>| #[trigger] self.ran_from(old(registry), &pre, urgent[j] as int,
                            final(registry).node(self.nodes()[urgent[j] as int].id as int))
                    &&& r matches Err(e) ==> (e.error matches NodeExecutionError::InputInjection(_)) && e.graph_trace is Some
                    &&& r matches Err(e) ==> exists|top: GraphTrace| #[trigger] self.trace_of(old(registry), top)
                        && self.reports_trace(e, top)
                    &&& r is Ok ==> exists|rs: Seq<Registry<S>>| self.exec_in_turn(rs, urgent, Ok(*final(registry)))
                        && #[trigger] rs[0] == *old(registry)
                    &&& r is Err ==> exists|rs: Seq<Registry<S>>| self.exec_in_turn(rs, urgent, Err(*final(registry)))
                        && #[trigger] rs[0] == *old(registry)
                },
            },
    {
        let top_trace = self.generate_trace(registry);
        let ghost top = top_trace;
        let urgent = match self.urgent_nodes(registry) {
            Ok(v) => v,
            Err(e) => {
                proof {
                    assert(self.trace_of(old(registry), top));
                }
                return Err(ErrorWithTrace::from_error(e).with_trace(top_trace));
            },
        };
        let ghost map = self.index_map();
        proof {
            lemma_first_absent_from(map, &*registry, 0);
            lemma_urgent_upto(map, &*registry, map.len() as int);
            assert forall|y: int| 0 <= y < self.nodes().len() implies registry.holds(#[trigger] self.nodes()[y].id as int) by {
                assert(has_key(map, self.nodes()[y]));
                let k = choose|k: int| 0 <= k < map.len() && same_node(#[trigger] map[k].0, self.nodes()[y]);
                assert(registry.holds(map[k].0.id as int));
            }
        }
        let ghost start = *registry;
        let ghost mut rs: Seq<Registry<S>> = seq![*registry];
        let n = urgent.len();
        let mut i: usize = 0;
        while i < n
            invariant
                rs.len() == i + 1,
                rs[0] == *old(registry),
                rs[i as int] == *registry,
                forall|j: int| 0 <= j < i ==> self.exec_from(rs[j], (#[trigger] urgent@[j]) as int, Ok(rs[j + 1]),
                    self.depth(urgent@[j] as int)),
                self.wf(),
                forall|j: int| 0 <= j < urgent@.len() ==> self.ends_distinct_upstream(#[trigger] urgent@[j] as int),
                n == urgent@.len(),
                urgent@ == urgent_upto(map, &start, map.len() as int),
                map == self.index_map(),
                forall|j: int| 0 <= j < urgent@.len() ==> (#[trigger] urgent@[j]) < self.nodes().len(),
                start == *old(registry),
                first_absent_from(map, &start, 0) is None,
                i <= n,
                registry.wf(),
                registry.same_layout(old(registry)),
                self.held_by(registry),
                forall|s: int| 0 <= s < old(registry).slots().len()
                    && !(exists|j: int| 0 <= j < i && #[trigger] self.upstream_slot(urgent@[j] as int, s))
                    ==> registry.slots()[s] == old(registry).slots()[s],
                forall|j: int| 0 <= j < i ==> self.settled(registry, #[trigger] urgent@[j] as int),
                self.held_by(old(registry)),
                forall|j: int| 0 <= j < i ==> self.ran_upstream::<S>(#[trigger] urgent@[j] as int),
                self.trace_of(old(registry), top_trace),
                forall|j: int| 0 <= j < i && #[trigger] self.alone_among(urgent@, j, i as int)
                    ==> exists|pre: Registry<S>| #[trigger] self.ran_from(old(registry), &pre, urgent@[j] as int,
                        registry.node(self.nodes()[urgent@[j] as int].id as int)),
            decreases n - i,
        {
            let idx = urgent[i];
            proof {
                if forall|j: int| 0 <= j < urgent@.len() ==> self.quiet_upstream(old(registry), #[trigger] urgent@[j] as int) {
                    assert(self.quiet_upstream(old(registry), urgent@[i as int] as int));
                    self.lemma_quiet_transfer(old(registry), registry, idx as int);
                }
            }
            let ghost before = *registry;
            let res = self.execute_node(idx, &top_trace, registry);
            proof {
                assert forall|s: int| 0 <= s < old(registry).slots().len()
                    && !(exists|j: int| 0 <= j < i + 1 && #[trigger] self.upstream_slot(urgent@[j] as int, s))
                    implies registry.slots()[s] == old(registry).slots()[s] by {
                    assert(!self.upstream_slot(urgent@[i as int] as int, s));
                    assert(registry.slots()[s] == before.slots()[s]);
                }
            }
            if res.is_err() {
                proof {
                    assert forall|s: int| 0 <= s < old(registry).slots().len()
                        && !(exists|j: int| 0 <= j < urgent@.len() && #[trigger] self.upstream_slot(urgent@[j] as int, s))
                        implies registry.slots()[s] == old(registry).slots()[s] by {
                        assert(!(exists|j: int| 0 <= j < i + 1 && #[trigger] self.upstream_slot(urgent@[j] as int, s)));
                    }
                    assert(rs.last() == before);
                    assert(self.exec_in_turn(rs, urgent@, Err(*registry)));
                }
                return res;
            }
            proof {
                let ghost prev = rs;
                rs = rs.push(*registry);
                assert forall|j: int| 0 <= j < i + 1 implies self.exec_from(rs[j], (#[trigger] urgent@[j]) as int, Ok(rs[j + 1]),
                    self.depth(urgent@[j] as int)) by {
                    if j < i {
                        assert(rs[j] == prev[j] && rs[j + 1] == prev[j + 1]);
                    }
                }
            }
            proof {
                assert(self.ran_upstream::<S>(urgent@[i as int] as int));
                assert forall|j: int| 0 <= j < i + 1 && #[trigger] self.alone_among(urgent@, j, i + 1)
                    implies exists|pre: Registry<S>| #[trigger] self.ran_from(old(registry), &pre, urgent@[j] as int,
                        registry.node(self.nodes()[urgent@[j] as int].id as int)) by {
                    let sl = self.nodes()[urgent@[j] as int].id as int;
                    assert(old(registry).holds(sl));
                    if j < i {
                        assert(!self.upstream_slot(urgent@[i as int] as int, sl));
                        assert(self.alone_among(urgent@, j, i as int));
                        assert(registry.slots()[sl] == before.slots()[sl]);
                    } else {
                        assert(!(exists|k: int| 0 <= k < i && #[trigger] self.upstream_slot(urgent@[k] as int, sl))) by {
                            assert forall|k: int| 0 <= k < i implies !#[trigger] self.upstream_slot(urgent@[k] as int, sl) by {
                                assert(k != j);
                            }
                        }
                        assert(before.slots()[sl] == old(registry).slots()[sl]);
                        let post = registry.node(sl);
                        let pre = choose|pre: Registry<S>| #[trigger] self.ran_from(&before, &pre, idx as int, post)
                            && self.outputs_taken(&pre, sl, self.incoming_ids(idx as int), registry);
                        assert(self.ran_from(old(registry), &pre, urgent@[j] as int, post));
                    }
                }
            }
            proof {
                assert forall|j: int| 0 <= j < i + 1 implies self.settled(registry, #[trigger] urgent@[j] as int) by {
                    if j < i {
                        let uj = urgent@[j] as int;
                        assert(self.settled(&before, uj));
                        assert forall|z: int| 0 <= z < self.nodes().len() && reach(self.edges(), z, uj)
                            implies !registry.node((#[trigger] self.nodes()[z]).id as int).input_changed by {
                            let sl = self.nodes()[z].id as int;
                            assert(registry.holds(sl));
                            if self.upstream_slot(idx as int, sl) {
                                let z2 = choose|z2: int| 0 <= z2 < self.nodes().len() && reach(self.edges(), z2, idx as int)
                                    && (#[trigger] self.nodes()[z2]).id == sl;
                                assert(!registry.node(self.nodes()[z2].id as int).input_changed);
                            } else {
                                assert(registry.slots()[sl] == before.slots()[sl]);
                                assert(!before.node(self.nodes()[z].id as int).input_changed);
                            }
                        }
                    }
                }
            }
            i = i + 1;
        }
        proof {
            assert forall|s: int| 0 <= s < old(registry).slots().len()
                && !(exists|j: int| 0 <= j < urgent@.len() && #[trigger] self.upstream_slot(urgent@[j] as int, s))
                implies registry.slots()[s] == old(registry).slots()[s] by {
                assert(!(exists|j: int| 0 <= j < n && #[trigger] self.upstream_slot(urgent@[j] as int, s)));
            }
        }
        Ok(())
    }

    /// Whether no edge into dag node `idx` comes from a node with the same
    /// registry index.
    pub fn has_distinct_ends_into(&self, idx: usize) -> (r: bool)
        requires
            self.wf(),
            idx < self.nodes().len(),
        ensures
            r == self.ends_distinct_into(idx as int),
    {
        let parents = self.parents(idx);
        let own = dag_node_weight(&self.dag, idx);
        let own_id = match own {
            Some(w) => w.id,
            None => {
                return false;
            },
        };
        proof {
            lemma_incoming(self.edges(), idx as int);
            lemma_incoming_complete(self.edges(), idx as int);
        }
        let n = parents.len();
        let mut j: usize = 0;
        while j < n
            invariant
                self.wf(),
                idx < self.nodes().len(),
                own_id == self.nodes()[idx as int].id,
                n == parents@.len(),
                self.parents_of(idx as int, parents@),
                j <= n,
                forall|k: int| 0 <= k < j ==> self.nodes()[(#[trigger] parents@[k]).1 as int].id != own_id,
            decreases n - j,
        {
            let p = parents[j].1;
            proof {
                assert(0 <= self.edges()[parents@[j as int].0 as int].0 < self.nodes().len());
            }
            match dag_node_weight(&self.dag, p) {
                Some(w) => {
                    if w.id == own_id {
                        proof {
                            let e = parents@[j as int].0 as int;
                            assert(self.edges()[e].1 == idx as int && self.edges()[e].0 == p as int);
                        }
                        return false;
                    }
                },
                None => {
                    return false;
                },
            }
            j = j + 1;
        }
        proof {
            assert forall|e: int| 0 <= e < self.edges().len() && (#[trigger] self.edges()[e]).1 == idx as int
                implies self.nodes()[self.edges()[e].0].id != self.nodes()[idx as int].id by {
                let inc = incoming(self.edges(), idx as int);
                let k = choose|k: int| 0 <= k < inc.len() && (#[trigger] inc[k]).0 == e;
                assert(parents@[k].1 as int == inc[k].1);
            }
        }
        true
    }

    /// Whether no edge joins two nodes with the same registry index.
    pub fn has_distinct_ends(&self) -> (r: bool)
        requires
            self.wf(),
        ensures
            r == self.distinct_ends(),
    {
        let m = dag_edge_count(&self.dag);
        let mut j: usize = 0;
        while j < m
            invariant
                self.wf(),
                m == self.edges().len(),
                j <= m,
                forall|e: int| 0 <= e < j ==>
                    self.nodes()[(#[trigger] self.edges()[e]).0].id != self.nodes()[self.edges()[e].1].id,
            decreases m - j,
        {
            let (source, target, _info) = dag_raw_edge(&self.dag, j);
            proof {
                assert(0 <= self.edges()[j as int].0 < self.nodes().len());
                assert(0 <= self.edges()[j as int].1 < self.nodes().len());
            }
            let a = dag_node_weight(&self.dag, source);
            let b = dag_node_weight(&self.dag, target);
            match (a, b) {
                (Some(x), Some(y)) => {
                    if x.id == y.id {
                        return false;
                    }
                },
                _ => {
                    return false;
                },
            }
            j = j + 1;
        }
        true
    }

    /// Whether the registry holds every node of the dag.
    pub fn held_by_registry<S: Stage>(&self, registry: &Registry<S>) -> (r: bool)
        requires
            self.wf(),
        ensures
            r == self.held_by(registry),
    {
        let n = self.node_indices.len();
        let ghost map = self.index_map();
        let mut i: usize = 0;
        while i < n
            invariant
                self.wf(),
                map == self.index_map(),
                n == map.len(),
                i <= n,
                forall|k: int| 0 <= k < i ==> registry.holds(#[trigger] map[k].0.id as int),
            decreases n - i,
        {
            if registry.get_node_any(self.node_indices[i].0).is_none() {
                proof {
                    let y = map[i as int].1 as int;
                    assert(self.nodes()[y] == map[i as int].0);
                }
                return false;
            }
            i = i + 1;
        }
        proof {
            assert forall|y: int| 0 <= y < self.nodes().len() implies registry.holds(#[trigger] self.nodes()[y].id as int) by {
                assert(has_key(map, self.nodes()[y]));
                let k = choose|k: int| 0 <= k < map.len() && same_node(#[trigger] map[k].0, self.nodes()[y]);
                assert(registry.holds(map[k].0.id as int));
            }
        }
        true
    }

    /// Connects the output of a node to the input of another node, resulting
    /// in a new graph edge. Refused when either node is not in the graph,
    /// or when the edge would close a cycle.
    pub fn connect(
        &mut self,
        from_id: NodeId,
        to_id: NodeId,
        source_output: Option<&'static TypeReflection>,
        target_input: Option<&'static TypeReflection>,
    ) -> (r: Result<(), EdgeCreationError>)
        requires
            old(self).wf(),
            (old(self).index_of(from_id.reflection_spec()) matches Some(a)
                && old(self).index_of(to_id.reflection_spec()) matches Some(b)
                && !reach(old(self).edges(), b, a)) ==> old(self).edges().len() < index_end(),
        ensures
            final(self).wf(),
            final(self).nodes() == old(self).nodes(),
            final(self).index_map() == old(self).index_map(),
            match (old(self).index_of(from_id.reflection_spec()), old(self).index_of(to_id.reflection_spec())) {
                (None, _) => final(self).edges() == old(self).edges()
                    && (r matches Err(EdgeCreationError::NodesNotFound(e)) && e.0@ == seq![from_id.reflection_spec()]),
                (Some(_), None) => final(self).edges() == old(self).edges()
                    && (r matches Err(EdgeCreationError::NodesNotFound(e)) && e.0@ == seq![to_id.reflection_spec()]),
                (Some(a), Some(b)) => if reach(old(self).edges(), b, a) {
                    &&& final(self).edges() == old(self).edges()
                    &&& r matches Err(EdgeCreationError::CycleError(info))
                    &&& info == (EdgeInfo { source_output, target_input })
                } else {
                    &&& r is Ok
                    &&& final(self).edges() == old(self).edges().push((a, b, EdgeInfo { source_output, target_input }))
                },
            },
    {
        let from_r = from_id.reflection();
        let to_r = to_id.reflection();
        let from_idx = match self.key_position(&from_r) {
            Some(k) => self.node_indices[k].1,
            None => {
                return Err(EdgeCreationError::NodesNotFound(NodesNotFoundError::single(from_r)));
            },
        };
        let to_idx = match self.key_position(&to_r) {
            Some(k) => self.node_indices[k].1,
            None => {
                return Err(EdgeCreationError::NodesNotFound(NodesNotFoundError::single(to_r)));
            },
        };
        let info = EdgeInfo { source_output, target_input };
        proof {
            if !reach(dag_edges(self.dag), to_idx as int, from_idx as int) {
                lemma_acyclic_push(dag_edges(self.dag), (from_idx as int, to_idx as int, info));
            }
            lemma_edges_within_push(dag_edges(self.dag), (from_idx as int, to_idx as int, info), dag_nodes(self.dag).len() as int);
        }
        match dag_add_edge(&mut self.dag, from_idx, to_idx, info) {
            Ok(_) => Ok(()),
            Err(back) => Err(EdgeCreationError::CycleError(back)),
        }
    }
}

} // verus!
