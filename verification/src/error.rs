//! Errors and the graph trace system.
use vstd::prelude::*;
use crate::stage::TypeReflection;
use crate::registry::{NodeReflection, same_node, same_node_exec};
use crate::text::{str_eq, decimal, replace_all, push_decimal, push_replaced};
use crate::graphs::EdgeInfo;

verus! {

/// Errors while moving data into a node or evaluating it.
#[derive(Debug, Clone, Copy)]
pub enum InjectionError {
    OutputNotFound(Option<&'static TypeReflection>),
    OutputTypeMismatch(Option<&'static TypeReflection>),
    InputNotFound(Option<&'static TypeReflection>),
    InputTypeMismatch(Option<&'static TypeReflection>),
}

/// Nodes that a registry does not hold.
#[derive(Debug)]
pub struct NodesNotFoundError(pub Vec<NodeReflection>);

/// A node index that a graph does not hold.
#[derive(Debug, Clone, Copy)]
pub struct NodeNotFoundInGraphError(pub usize);

/// An edge index that a graph does not hold.
#[derive(Debug, Clone, Copy)]
pub struct EdgeNotFoundInGraphError(pub usize);

/// A node whose stage is not the one expected: the stage names.
#[derive(Debug, Clone, Copy)]
pub struct NodeTypeMismatchError {
    pub got: &'static str,
    pub expected: &'static str,
}

/// Errors while executing a graph.
#[derive(Debug)]
pub enum NodeExecutionError {
    NodesNotFoundInRegistry(NodesNotFoundError),
    NodeNotFoundInGraph(NodeNotFoundInGraphError),
    EdgeNotFoundInGraph(EdgeNotFoundInGraphError),
    InputInjection(InjectionError),
}

/// Errors of registry lookups.
#[derive(Debug)]
pub enum RegistryError {
    NodesNotFoundInRegistry(NodesNotFoundError),
    NodeTypeMismatch(NodeTypeMismatchError),
}

/// Errors while connecting two nodes of a graph.
#[derive(Debug)]
pub enum EdgeCreationError {
    NodesNotFound(NodesNotFoundError),
    /// The connection would close a cycle; it carries the refused edge.
    CycleError(EdgeInfo),
}

/// Wrapper error type, wraps errors from this crate and stores a graph
/// trace with them.
#[derive(Debug)]
pub struct ErrorWithTrace<T> {
    pub error: T,
    pub graph_trace: Option<GraphTrace>,
}

impl<T> ErrorWithTrace<T> {
    /// The error without a trace.
    pub fn from_error(error: T) -> (r: Self)
        ensures
            r.error == error,
            r.graph_trace is None,
    {
        ErrorWithTrace { error, graph_trace: None }
    }

    /// The same error with `trace` attached.
    pub fn with_trace(self, trace: GraphTrace) -> (r: Self)
        ensures
            r.error == self.error,
            r.graph_trace == Some(trace),
    {
        ErrorWithTrace { error: self.error, graph_trace: Some(trace) }
    }
}

/// A trace of a graph, containing information about nodes and connections.
#[derive(Debug)]
pub struct GraphTrace {
    /// Information about each node in the graph.
    pub nodes: Vec<NodeInfo>,
    /// Information about each connection in the graph.
    pub connections: Vec<ConnectionInfo>,
}

/// Information about a node in the graph.
#[derive(Debug, Clone, Copy)]
pub struct NodeInfo {
    /// The unique ID of the node.
    pub id: NodeReflection,
    /// The name of the node.
    pub name: &'static str,
    /// The input fields of the node.
    pub inputs: &'static [TypeReflection],
    /// The output fields of the node.
    pub outputs: &'static [TypeReflection],
    /// Used for debugging purposes
    pub highlighted: bool,
}

/// Information about a connection in the graph.
#[derive(Debug, Clone, Copy)]
pub struct ConnectionInfo {
    /// The ID of the source node.
    pub source_id: NodeReflection,
    /// The output label of the source node.
    pub source_output: Option<&'static TypeReflection>,
    /// The ID of the target node.
    pub target_id: NodeReflection,
    /// The input label of the target node.
    pub target_input: Option<&'static TypeReflection>,
    /// Used for debugging purposes
    pub highlighted: bool,
}

/// Two optional field labels are the same: both absent, or both present
/// with the same name and type.
pub open spec fn same_label(a: Option<&'static TypeReflection>, b: Option<&'static TypeReflection>) -> bool {
    match (a, b) {
        (None, None) => true,
        (Some(x), Some(y)) => x.name@ == y.name@ && x.ty@ == y.ty@,
        _ => false,
    }
}

/// Whether two optional field labels are the same.
pub fn same_label_exec(a: Option<&'static TypeReflection>, b: Option<&'static TypeReflection>) -> (r: bool)
    ensures
        r == same_label(a, b),
{
    match (a, b) {
        (None, None) => true,
        (Some(x), Some(y)) => str_eq(x.name, y.name) && str_eq(x.ty, y.ty),
        _ => false,
    }
}

/// The connection joins `source`'s output `output` to `target`'s input `input`.
pub open spec fn connection_matches(
    c: ConnectionInfo,
    source: NodeReflection,
    output: Option<&'static TypeReflection>,
    target: NodeReflection,
    input: Option<&'static TypeReflection>,
) -> bool {
    &&& same_node(c.source_id, source)
    &&& same_label(c.source_output, output)
    &&& same_node(c.target_id, target)
    &&& same_label(c.target_input, input)
}

/// The first entry from `i` on that is about the node `node`.
pub open spec fn first_node_from(s: Seq<NodeInfo>, node: NodeReflection, i: int) -> Option<int>
    decreases s.len() - i,
{
    if i < 0 || i >= s.len() {
        None
    } else if same_node(s[i].id, node) {
        Some(i)
    } else {
        first_node_from(s, node, i + 1)
    }
}

/// The first connection from `i` on that joins the given labels.
pub open spec fn first_connection_from(
    s: Seq<ConnectionInfo>,
    source: NodeReflection,
    output: Option<&'static TypeReflection>,
    target: NodeReflection,
    input: Option<&'static TypeReflection>,
    i: int,
) -> Option<int>
    decreases s.len() - i,
{
    if i < 0 || i >= s.len() {
        None
    } else if connection_matches(s[i], source, output, target, input) {
        Some(i)
    } else {
        first_connection_from(s, source, output, target, input, i + 1)
    }
}

/// `s` with its first entry for `node`, if any, highlighted.
pub open spec fn mark_node(s: Seq<NodeInfo>, node: NodeReflection) -> Seq<NodeInfo> {
    match first_node_from(s, node, 0) {
        Some(k) => s.update(k, NodeInfo { highlighted: true, ..s[k] }),
        None => s,
    }
}

/// `s` with its first connection joining the given labels, if any,
/// highlighted.
pub open spec fn mark_connection(
    s: Seq<ConnectionInfo>,
    source: NodeReflection,
    output: Option<&'static TypeReflection>,
    target: NodeReflection,
    input: Option<&'static TypeReflection>,
) -> Seq<ConnectionInfo> {
    match first_connection_from(s, source, output, target, input, 0) {
        Some(k) => s.update(k, ConnectionInfo { highlighted: true, ..s[k] }),
        None => s,
    }
}

/// A copy of a list of copyable values.
pub fn copy_vec<T: Copy>(v: &Vec<T>) -> (r: Vec<T>)
    ensures
        r@ == v@,
{
    let mut out: Vec<T> = Vec::new();
    let n = v.len();
    let mut i: usize = 0;
    while i < n
        invariant
            n == v@.len(),
            i <= n,
            out@ == v@.take(i as int),
        decreases n - i,
    {
        out.push(v[i]);
        i = i + 1;
        assert(out@ =~= v@.take(i as int));
    }
    assert(v@.take(n as int) =~= v@);
    out
}

impl GraphTrace {
    /// A copy of this trace.
    pub fn duplicate(&self) -> (r: Self)
        ensures
            r.nodes@ == self.nodes@,
            r.connections@ == self.connections@,
    {
        GraphTrace { nodes: copy_vec(&self.nodes), connections: copy_vec(&self.connections) }
    }

    /// Emphasizes a node in the trace: the first entry for `node`.
    pub fn highlight_node(&mut self, node: NodeReflection)
        ensures
            final(self).connections == old(self).connections,
            final(self).nodes@ == mark_node(old(self).nodes@, node),
    {
        let n = self.nodes.len();
        let mut i: usize = 0;
        while i < n
            invariant
                n == self.nodes@.len(),
                i <= n,
                self.nodes == old(self).nodes,
                self.connections == old(self).connections,
                first_node_from(old(self).nodes@, node, 0) == first_node_from(old(self).nodes@, node, i as int),
            decreases n - i,
        {
            if same_node_exec(&self.nodes[i].id, &node) {
                let mut info = self.nodes[i];
                info.highlighted = true;
                self.nodes.set(i, info);
                return;
            }
            i = i + 1;
        }
    }

    /// Emphasizes a connection in the trace: the first one that joins the
    /// given output of `source_node` to the given input of `target_node`.
    pub fn highlight_connection(
        &mut self,
        source_node: NodeReflection,
        source_output: Option<&'static TypeReflection>,
        target_node: NodeReflection,
        target_input: Option<&'static TypeReflection>,
    )
        ensures
            final(self).nodes == old(self).nodes,
            final(self).connections@ == mark_connection(old(self).connections@, source_node, source_output, target_node, target_input),
    {
        let n = self.connections.len();
        let mut i: usize = 0;
        while i < n
            invariant
                n == self.connections@.len(),
                i <= n,
                self.nodes == old(self).nodes,
                self.connections == old(self).connections,
                first_connection_from(old(self).connections@, source_node, source_output, target_node, target_input, 0)
                    == first_connection_from(old(self).connections@, source_node, source_output, target_node, target_input, i as int),
            decreases n - i,
        {
            let c = self.connections[i];
            if same_node_exec(&c.source_id, &source_node) && same_label_exec(c.source_output, source_output)
                && same_node_exec(&c.target_id, &target_node) && same_label_exec(c.target_input, target_input) {
                let mut info = c;
                info.highlighted = true;
                self.connections.set(i, info);
                return;
            }
            i = i + 1;
        }
    }
}

/// The characters that the diagram replaces by `_` in a field name.
pub open spec fn sanitizer() -> Seq<char> {
    " |-|.|:|/|\\"@
}

/// A field name as it stands in a diagram identifier.
pub open spec fn sanitized(name: Seq<char>) -> Seq<char> {
    replace_all(name, sanitizer(), "_"@)
}

/// `p` followed by the diagram line of input `f` of node `id`.
pub open spec fn with_input_line(p: Seq<char>, id: usize, f: TypeReflection) -> Seq<char> {
    p + "        "@ + decimal(id as nat) + "_in_"@ + sanitized(f.name@) + "[/\""@ + f.name@ + ": "@ + f.ty@ + "\"\\]\n"@
}

/// `p` followed by the diagram line of output `f` of node `id`.
pub open spec fn with_output_line(p: Seq<char>, id: usize, f: TypeReflection) -> Seq<char> {
    p + "        "@ + decimal(id as nat) + "_out_"@ + sanitized(f.name@) + "[\\\""@ + f.name@ + ": "@ + f.ty@ + "\"/]\n"@
}

/// `p` followed by the diagram lines of the first `k` fields, as inputs or
/// as outputs of node `id`.
pub open spec fn with_field_lines(p: Seq<char>, id: usize, fields: Seq<TypeReflection>, input: bool, k: int) -> Seq<char>
    decreases k,
{
    if k <= 0 {
        p
    } else if input {
        with_input_line(with_field_lines(p, id, fields, input, k - 1), id, fields[k - 1])
    } else {
        with_output_line(with_field_lines(p, id, fields, input, k - 1), id, fields[k - 1])
    }
}

/// `p` followed by the opening line of node `n`'s block.
pub open spec fn with_node_head(p: Seq<char>, n: NodeInfo) -> Seq<char> {
    p + "    subgraph Node_"@ + decimal(n.id.id as nat) + "_[\"Node "@ + decimal(n.id.id as nat) + " ("@ + n.name@ + ")\"]\n"@
}

/// `p` followed by the closing lines of node `n`'s block.
pub open spec fn with_node_tail(p: Seq<char>, n: NodeInfo) -> Seq<char> {
    if n.highlighted {
        p + "    end\n"@ + "    style Node_"@ + decimal(n.id.id as nat) + "_ stroke:yellow,stroke-width:3;\n"@
    } else {
        p + "    end\n"@
    }
}

/// `p` followed by the diagram block of node `n`: a subgraph with a line per
/// input and per output, styled when the node is highlighted.
pub open spec fn with_node_block(p: Seq<char>, n: NodeInfo) -> Seq<char> {
    with_node_tail(
        with_field_lines(
            with_field_lines(with_node_head(p, n), n.id.id, n.inputs@, true, n.inputs@.len() as int),
            n.id.id, n.outputs@, false, n.outputs@.len() as int),
        n)
}

/// `p` followed by the blocks of the first `k` nodes.
pub open spec fn with_node_blocks(p: Seq<char>, nodes: Seq<NodeInfo>, k: int) -> Seq<char>
    decreases k,
{
    if k <= 0 {
        p
    } else {
        with_node_block(with_node_blocks(p, nodes, k - 1), nodes[k - 1])
    }
}

/// The name a connection end shows: the field's name, or `_` for none.
pub open spec fn label_name(f: Option<&'static TypeReflection>) -> Seq<char> {
    match f {
        Some(t) => t.name@,
        None => "_"@,
    }
}

/// `p` followed by the arrow of connection number `i`, styled when the
/// connection is highlighted.
pub open spec fn with_connection_line(p: Seq<char>, i: nat, c: ConnectionInfo) -> Seq<char> {
    let q = p + "    "@ + decimal(c.source_id.id as nat) + "_out_"@ + sanitized(label_name(c.source_output)) + " --> "@
        + decimal(c.target_id.id as nat) + "_in_"@ + sanitized(label_name(c.target_input)) + "\n"@;
    if c.highlighted {
        q + "    linkStyle "@ + decimal(i) + " stroke:yellow,stroke-width:3;\n"@
    } else {
        q
    }
}

/// `p` followed by the arrows of the first `k` connections.
pub open spec fn with_connection_lines(p: Seq<char>, connections: Seq<ConnectionInfo>, k: int) -> Seq<char>
    decreases k,
{
    if k <= 0 {
        p
    } else {
        with_connection_line(with_connection_lines(p, connections, k - 1), (k - 1) as nat, connections[k - 1])
    }
}

/// The Mermaid flowchart of a trace: a header, a block per node, an arrow
/// per connection, and the closing fence.
pub open spec fn mermaid(nodes: Seq<NodeInfo>, connections: Seq<ConnectionInfo>) -> Seq<char> {
    let header = Seq::<char>::empty() + "```mermaid\n"@ + "flowchart TB\n"@;
    with_connection_lines(with_node_blocks(header, nodes, nodes.len() as int), connections, connections.len() as int)
        + "```\n"@
}

/// Appends the diagram lines of `fields` to `out`.
fn push_field_lines(out: &mut String, id: usize, fields: &'static [TypeReflection], input: bool)
    ensures
        final(out)@ == with_field_lines(old(out)@, id, fields@, input, fields@.len() as int),
{
    let n = fields.len();
    let mut i: usize = 0;
    while i < n
        invariant
            n == fields@.len(),
            i <= n,
            out@ == with_field_lines(old(out)@, id, fields@, input, i as int),
        decreases n - i,
    {
        let f = fields[i];
        if input {
            out.append("        ");
            push_decimal(out, id);
            out.append("_in_");
            push_replaced(out, f.name, " |-|.|:|/|\\", "_");
            out.append("[/\"");
            out.append(f.name);
            out.append(": ");
            out.append(f.ty);
            out.append("\"\\]\n");
        } else {
            out.append("        ");
            push_decimal(out, id);
            out.append("_out_");
            push_replaced(out, f.name, " |-|.|:|/|\\", "_");
            out.append("[\\\"");
            out.append(f.name);
            out.append(": ");
            out.append(f.ty);
            out.append("\"/]\n");
        }
        i = i + 1;
    }
}

/// Appends the diagram block of `node` to `out`.
fn push_node_block(out: &mut String, node: NodeInfo)
    ensures
        final(out)@ == with_node_block(old(out)@, node),
{
    let id = node.id.id;
    out.append("    subgraph Node_");
    push_decimal(out, id);
    out.append("_[\"Node ");
    push_decimal(out, id);
    out.append(" (");
    out.append(node.name);
    out.append(")\"]\n");
    push_field_lines(out, id, node.inputs, true);
    push_field_lines(out, id, node.outputs, false);
    out.append("    end\n");
    if node.highlighted {
        out.append("    style Node_");
        push_decimal(out, id);
        out.append("_ stroke:yellow,stroke-width:3;\n");
    }
}

/// Appends the arrow of connection number `i` to `out`.
fn push_connection_line(out: &mut String, i: usize, c: ConnectionInfo)
    ensures
        final(out)@ == with_connection_line(old(out)@, i as nat, c),
{
    let source_name = match c.source_output {
        Some(f) => f.name,
        None => "_",
    };
    let target_name = match c.target_input {
        Some(f) => f.name,
        None => "_",
    };
    out.append("    ");
    push_decimal(out, c.source_id.id);
    out.append("_out_");
    push_replaced(out, source_name, " |-|.|:|/|\\", "_");
    out.append(" --> ");
    push_decimal(out, c.target_id.id);
    out.append("_in_");
    push_replaced(out, target_name, " |-|.|:|/|\\", "_");
    out.append("\n");
    if c.highlighted {
        out.append("    linkStyle ");
        push_decimal(out, i);
        out.append(" stroke:yellow,stroke-width:3;\n");
    }
}

impl GraphTrace {
    /// Creates a Mermaid flowchart of the trace: a subgraph per node with
    /// its inputs and outputs, an arrow per connection, and a highlight
    /// style for each highlighted node and connection.
    pub fn create_mermaid_graph(&self) -> (r: String)
        ensures
            r@ == mermaid(self.nodes@, self.connections@),
    {
        let mut result = String::new();
        result.append("```mermaid\n");
        result.append("flowchart TB\n");
        let ghost head = result@;
        let n = self.nodes.len();
        let mut i: usize = 0;
        while i < n
            invariant
                n == self.nodes@.len(),
                i <= n,
                result@ == with_node_blocks(head, self.nodes@, i as int),
            decreases n - i,
        {
            push_node_block(&mut result, self.nodes[i]);
            i = i + 1;
        }
        let ghost mid = result@;
        let m = self.connections.len();
        let mut j: usize = 0;
        while j < m
            invariant
                m == self.connections@.len(),
                j <= m,
                result@ == with_connection_lines(mid, self.connections@, j as int),
            decreases m - j,
        {
            push_connection_line(&mut result, j, self.connections[j]);
            j = j + 1;
        }
        result.append("```\n");
        result
    }
}

impl NodesNotFoundError {
    /// The error naming exactly the given nodes.
    pub fn from_slice(value: &[NodeReflection]) -> (r: Self)
        ensures
            r.0@ == value@,
    {
        let mut v: Vec<NodeReflection> = Vec::new();
        let n = value.len();
        let mut i: usize = 0;
        while i < n
            invariant
                n == value@.len(),
                i <= n,
                v@ == value@.take(i as int),
            decreases n - i,
        {
            v.push(value[i]);
            i = i + 1;
            assert(v@ =~= value@.take(i as int));
        }
        assert(value@.take(n as int) =~= value@);
        NodesNotFoundError(v)
    }

    /// The error naming two nodes.
    pub fn pair(a: NodeReflection, b: NodeReflection) -> (r: Self)
        ensures
            r.0@ == seq![a, b],
    {
        let mut v = Vec::new();
        v.push(a);
        v.push(b);
        NodesNotFoundError(v)
    }

    /// The error naming one node.
    pub fn single(node: NodeReflection) -> (r: Self)
        ensures
            r.0@ == seq![node],
    {
        let mut v = Vec::new();
        v.push(node);
        NodesNotFoundError(v)
    }
}

} // verus!
