# directed

Directed acyclic computation pipelines: stages are registered as nodes in a
`Registry`, a `Graph` connects node outputs to node inputs, and executing the
graph evaluates every urgent node after the nodes it depends on, moving or
copying data along the edges and skipping caching nodes whose inputs did not
change.

The library under `src/` is verified with Verus:

- `stage.rs`: stage shapes (named, typed inputs and outputs), evaluation
  strategies and reevaluation rules, and the `Stage` trait.
- `node.rs`: a node's slots, its evaluation (with the `CacheAll` cache) and the
  data flow from a parent node into a child node.
- `registry.rs`: the slots of registered nodes and the lookups on them.
- `dag.rs`: the `daggy` dag underneath a graph, the trusted calls into it, and
  the reachability facts that keep it acyclic.
- `graphs.rs`: graph construction, connections, traces and execution.
- `error.rs`: error values and the graph trace with its Mermaid diagram.
- `config.rs`: what the `#[stage]` attribute decides from its arguments and
  from the decorated function's signature.
- `text.rs`: character-level string helpers.
- `laws.rs`: properties that span several operations.

`app/` holds what stays outside the verified library: the error types with
their messages, and asynchronous execution on a tokio runtime.
