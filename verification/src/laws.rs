//! Properties of the library as a whole, proved from the contracts of its
//! operations.
use vstd::prelude::*;
use vstd::std_specs::cmp::PartialEqSpec;
use crate::dag::{is_walk, has_edge, reach, lemma_reach_refl, lemma_reach_prepend, incoming, lemma_incoming_complete};
use crate::node::output_position;
use crate::stage::find_named;
use crate::text::base_type;
use crate::graphs::Graph;
use crate::node::{Node, copy_marks_changed, inputs_eq_spec, clones_of, lemma_cache_hit, cache_hit};
use crate::registry::{NodeId, NodeReflection, Registry};
use crate::stage::{Stage, ReevaluationRule, EvalStrategy};
use crate::graphs::urgent_upto;
use crate::config::{StageArg, CacheStrategy, cache_in, clean_name};

verus! {

/// A graph never holds a cycle: no walk of one step or more along its
/// edges returns to where it started.
pub proof fn law_graph_has_no_cycle(g: &Graph, p: Seq<int>)
    requires
        g.wf(),
        is_walk(g.edges(), p),
        p.len() >= 2,
    ensures
        p[0] != p.last(),
{
}

/// Once `a` is connected to `b`, `a` can be reached from `b`'s side in
/// reverse, so connecting `b` to `a` closes a cycle and is refused (see
/// the contract of `Graph::connect`); a node can never be connected to
/// itself either.
pub proof fn law_reverse_connection_refused(g: &Graph, a: int, b: int)
    requires
        g.wf(),
        has_edge(g.edges(), a, b),
    ensures
        reach(g.edges(), a, b),
        reach(g.edges(), a, a),
{
    lemma_reach_refl(g.edges(), b);
    lemma_reach_prepend(g.edges(), a, b, b);
    lemma_reach_refl(g.edges(), a);
}

/// After a successful execution every caching node upstream of an urgent
/// node (the urgent node included) needs no evaluation: executing again
/// without new data does not evaluate it again.
pub proof fn law_settled_caching_nodes_are_skipped<S: Stage>(g: &Graph, reg: &Registry<S>, x: int, z: int)
    requires
        g.settled(reg, x),
        0 <= z < g.nodes().len(),
        reach(g.edges(), z, x),
        reg.node(g.nodes()[z].id as int).reeval_rule != ReevaluationRule::Move,
    ensures
        !reg.node(g.nodes()[z].id as int).needs_eval(),
{
    assert(!reg.node(g.nodes()[z].id as int).input_changed);
}

/// A caching parent that hands a settled child a value equal to the one the
/// child holds leaves the child settled, so the child is not evaluated
/// again.
pub proof fn law_equal_copy_keeps_child_settled<S: Stage>(child: Node<S>, i: int, v: S::Value)
    requires
        S::Value::obeys_eq_spec(),
        !child.input_changed,
        child.inputs@[i] matches Some((e, _)) && v.eq_spec(&e),
    ensures
        !copy_marks_changed(child, i, v),
{
}

/// A node that holds an empty input slot cannot be evaluated: its
/// evaluation fails whatever its rule (see `Node::run`).
pub proof fn law_missing_input_blocks_evaluation<S: Stage>(n: Node<S>, i: int)
    requires
        0 <= i < n.inputs@.len(),
        n.inputs@[i] is None,
    ensures
        crate::node::first_missing(n.inputs@, 0) is Some,
{
    crate::node::lemma_first_missing(n.inputs@, 0);
}

/// A `CacheAll` node whose inputs agree with inputs it has evaluated before
/// is answered from its cache: its evaluation (see `Node::run`) leaves its
/// state and its cache alone, and its outputs are clones of the outputs
/// cached for the earliest such inputs.
pub proof fn law_cache_all_replays_known_inputs<S: Stage>(n: Node<S>, after: Node<S>, j: int)
    requires
        S::Value::obeys_eq_spec(),
        n.reeval_rule == ReevaluationRule::CacheAll,
        0 <= j < n.cache@.len(),
        inputs_eq_spec(n.cache@[j].inputs@, n.inputs@),
        n.cache_all_outcome(&after, after.outputs@),
    ensures
        after.state == n.state,
        after.cache == n.cache,
        exists|k: int| 0 <= k <= j && clones_of(n.cache@[k].outputs@, after.outputs@),
{
    lemma_cache_hit(n.cache@, n.inputs@, 0);
    let k = crate::node::cache_hit(n.cache@, n.inputs@, 0)->0;
    assert(0 <= k <= j && clones_of(n.cache@[k].outputs@, after.outputs@));
}

/// Registering adds a node under an identifier that named no node before,
/// leaves every other slot as it was, and the node is then found again
/// under that identifier with its stage (see `Registry::register` and
/// `Registry::get_node`).
pub proof fn law_registration_is_found<S: Stage>(before: &Registry<S>, after: &Registry<S>, id: NodeId, stage: S)
    requires
        id.id == before.slots().len(),
        after.slots().len() == before.slots().len() + 1,
        after.slots().take(before.slots().len() as int) == before.slots(),
        after.holds(id.id as int),
        after.node(id.id as int).stage == stage,
        after.node(id.id as int).shape == id.shape,
    ensures
        !before.holds(id.id as int),
        after.holds_shape(id.id as int, *id.shape),
        forall|i: int| 0 <= i < before.slots().len() ==> (#[trigger] after.slots()[i]) == before.slots()[i],
{
    assert forall|i: int| 0 <= i < before.slots().len() implies (#[trigger] after.slots()[i]) == before.slots()[i] by {
        assert(after.slots().take(before.slots().len() as int)[i] == after.slots()[i]);
    }
}

/// Unregistering empties the node's slot and no other: the node is no
/// longer found, every other node keeps its identifier, and no slot is
/// removed (see `Registry::unregister` and `Registry::unregister_and_drop`).
pub proof fn law_unregistered_node_is_gone<S: Stage>(before: &Registry<S>, after: &Registry<S>, id: NodeReflection)
    requires
        id.id < before.slots().len(),
        after.slots() == before.slots().update(id.id as int, None),
    ensures
        !after.holds(id.id as int),
        after.slots().len() == before.slots().len(),
        forall|i: int| i != id.id ==> #[trigger] after.holds(i) == before.holds(i),
        forall|i: int| i != id.id && before.holds(i) ==> #[trigger] after.node(i) == before.node(i),
{
}

/// A `CacheAll` node remembers what it computed: after an evaluation that
/// missed the cache, the new entry records the inputs, so that evaluating
/// again with the same inputs hits that entry and is answered from it (see
/// `law_cache_all_replays_known_inputs`). This holds for value types whose
/// clones compare equal to their originals.
pub proof fn law_cache_all_remembers<S: Stage>(n: Node<S>, after: Node<S>, produced: Seq<Option<S::Value>>)
    requires
        S::Value::obeys_eq_spec(),
        forall|a: S::Value, b: S::Value| #[trigger] cloned::<S::Value>(a, b) ==> b.eq_spec(&a),
        cache_hit(n.cache@, n.inputs@, 0) is None,
        n.cache_all_outcome(&after, produced),
    ensures
        cache_hit(after.cache@, n.inputs@, 0) == Some(n.cache@.len() as int),
{
    let len = n.cache@.len() as int;
    lemma_cache_hit(n.cache@, n.inputs@, 0);
    lemma_cache_hit(after.cache@, n.inputs@, 0);
    let last = after.cache@[len].inputs@;
    assert(after.cache@.last() == after.cache@[len]);
    assert forall|i: int| 0 <= i < last.len() implies match (#[trigger] last[i], n.inputs@[i]) {
        (None, None) => true,
        (Some((x, rx)), Some((y, ry))) => x.eq_spec(&y) && rx == ry,
        _ => false,
    } by {
        match (n.inputs@[i], last[i]) {
            (Some((a, ra)), Some((b, rb))) => {
                assert(cloned::<S::Value>(a, b));
            },
            _ => {},
        }
    }
    assert(inputs_eq_spec(last, n.inputs@));
    assert forall|k: int| 0 <= k < len implies after.cache@[k] == #[trigger] n.cache@[k] by {
        assert(after.cache@.take(len)[k] == after.cache@[k]);
    }
    match cache_hit(after.cache@, n.inputs@, 0) {
        Some(k) => {
            if k < len {
                assert(after.cache@[k] == n.cache@[k]);
                assert(!inputs_eq_spec(n.cache@[k].inputs@, n.inputs@));
            }
        },
        None => {
            assert(!inputs_eq_spec(after.cache@[len].inputs@, n.inputs@));
        },
    }
}

/// Every field that a connection can name has a slot in a well-formed node:
/// a declared input or output selected by label lies within the node's
/// input or output slots, so `DynFields` access reaches it.
pub proof fn law_declared_fields_have_slots<S: Stage>(n: Node<S>, field: Option<&'static crate::stage::TypeReflection>)
    requires
        n.wf(),
    ensures
        crate::node::field_position(n.shape.outputs@, field) matches Some(k) ==> 0 <= k < n.outputs@.len(),
        crate::node::field_position(n.shape.inputs@, field) matches Some(k) ==> 0 <= k < n.inputs@.len(),
{
    let unnamed = crate::stage::unnamed_output_name();
    crate::stage::lemma_find_named_from(n.shape.outputs@, unnamed, 0);
    crate::stage::lemma_find_named_from(n.shape.inputs@, unnamed, 0);
    if let Some(f) = field {
        crate::stage::lemma_find_named_from(n.shape.outputs@, f.name@, 0);
        crate::stage::lemma_find_named_from(n.shape.inputs@, f.name@, 0);
    }
}

/// Executing keeps the registry's layout: the same slots hold nodes, of
/// the same stages.
pub proof fn law_execution_keeps_layout<S: Stage>(g: &Graph, r: Registry<S>, x: int,
    res: Result<Registry<S>, Registry<S>>, d: nat)
    requires
        g.exec_from(r, x, res, d),
    ensures
        match res {
            Ok(r2) => r2.same_layout(&r),
            Err(r2) => r2.same_layout(&r),
        },
    decreases d,
{
    reveal(Graph::exec_from);
    let rs = choose|rs: Seq<Registry<S>>| g.exec_chain(rs, x, res, (d - 1) as nat) && #[trigger] rs[0] == r;
    let inc = incoming(g.edges(), x);
    assert forall|i: int| 0 <= i < rs.len() - 1 implies #[trigger] rs[i + 1].same_layout(&rs[i]) by {
        assert(g.exec_from(rs[i], inc[i].1, Ok(rs[i + 1]), (d - 1) as nat));
        law_execution_keeps_layout(g, rs[i], inc[i].1, Ok(rs[i + 1]), (d - 1) as nat);
    }
    lemma_layout_along(rs, rs.len() - 1);
    if rs.len() <= inc.len() {
        law_execution_keeps_layout(g, rs.last(), inc[rs.len() - 1].1, res, (d - 1) as nat);
        match res {
            Ok(r2) => {},
            Err(r2) => lemma_same_layout_trans(&r2, &rs.last(), &r),
        }
    } else {
        match res {
            Ok(r2) => lemma_same_layout_trans(&r2, &rs.last(), &r),
            Err(r2) => lemma_same_layout_trans(&r2, &rs.last(), &r),
        }
    }
}

proof fn lemma_layout_along<S: Stage>(rs: Seq<Registry<S>>, k: int)
    requires
        0 <= k < rs.len(),
        forall|i: int| 0 <= i < rs.len() - 1 ==> #[trigger] rs[i + 1].same_layout(&rs[i]),
    ensures
        rs[k].same_layout(&rs[0]),
    decreases k,
{
    if k == 0 {
        assert forall|i: int| #[trigger] rs[0].holds(i) implies rs[0].node(i).same_frame(&rs[0].node(i)) by {}
    } else {
        lemma_layout_along(rs, k - 1);
        assert(rs[(k - 1) + 1].same_layout(&rs[k - 1]));
        lemma_same_layout_trans(&rs[k], &rs[k - 1], &rs[0]);
    }
}

proof fn lemma_same_layout_trans<S: Stage>(a: &Registry<S>, b: &Registry<S>, c: &Registry<S>)
    requires
        a.same_layout(b),
        b.same_layout(c),
    ensures
        a.same_layout(c),
{
    assert forall|i: int| #[trigger] a.holds(i) implies a.node(i).same_frame(&c.node(i)) by {
        assert(b.holds(i));
    }
}

/// An edge into `x` whose data the shapes of the nodes forbid to flow (the
/// input it names is not declared, the output it reads is not declared, or
/// the output's type is not the input's base type) makes every execution
/// of `x` fail: the data never reaches `x` and `x` is not evaluated.
pub proof fn law_mismatched_edge_fails<S: Stage>(g: &Graph, r: Registry<S>, x: int, e: int,
    res: Result<Registry<S>, Registry<S>>, d: nat)
    requires
        g.exec_from(r, x, res, d),
        0 <= e < g.edges().len(),
        g.edges()[e].1 == x,
        g.edges()[e].2.target_input matches Some(f) && match find_named(r.node(g.nodes()[x].id as int).shape.inputs@, f.name@) {
            None => true,
            Some(m) => {
                let p = r.node(g.nodes()[g.edges()[e].0].id as int);
                match output_position(*p.shape, g.edges()[e].2.source_output) {
                    None => true,
                    Some(k) => p.shape.outputs@[k].ty@ != base_type(r.node(g.nodes()[x].id as int).shape.inputs@[m].ty@),
                }
            },
        },
        r.holds(g.nodes()[x].id as int),
        r.holds(g.nodes()[g.edges()[e].0].id as int),
    ensures
        res is Err,
    decreases d,
{
    reveal(Graph::exec_from);
    let rs = choose|rs: Seq<Registry<S>>| g.exec_chain(rs, x, res, (d - 1) as nat) && #[trigger] rs[0] == r;
    let inc = incoming(g.edges(), x);
    if res is Ok && rs.len() > inc.len() {
        assert forall|i: int| 0 <= i < rs.len() - 1 implies #[trigger] rs[i + 1].same_layout(&rs[i]) by {
            assert(g.exec_from(rs[i], inc[i].1, Ok(rs[i + 1]), (d - 1) as nat));
            law_execution_keeps_layout(g, rs[i], inc[i].1, Ok(rs[i + 1]), (d - 1) as nat);
        }
        lemma_layout_along(rs, rs.len() - 1);
        let q = rs.last();
        let r2 = res->Ok_0;
        assert(g.stepped(&q, x, &r2));
        lemma_incoming_complete(g.edges(), x);
        let j = choose|j: int| 0 <= j < inc.len() && (#[trigger] inc[j]).0 == e;
        assert(g.incoming_ids(x)[j] == e);
        assert(g.edge_ready(&q, g.nodes()[x].id as int, g.incoming_ids(x)[j]));
        let c = g.nodes()[x].id as int;
        let ps = g.nodes()[g.edges()[e].0].id as int;
        assert(q.holds(c) && q.holds(ps));
        assert(q.node(c).shape == r.node(c).shape);
        assert(q.node(ps).shape == r.node(ps).shape);
        let qp = q.node(ps);
        qp.lemma_available_output(g.edges()[e].2.source_output);
    }
}

proof fn lemma_slot_along<S: Stage>(rs: Seq<Registry<S>>, s: int, k: int)
    requires
        0 <= k < rs.len(),
        forall|i: int| 0 <= i < rs.len() - 1 ==> #[trigger] rs[i + 1].slots()[s] == rs[i].slots()[s],
    ensures
        rs[k].slots()[s] == rs[0].slots()[s],
    decreases k,
{
    if k > 0 {
        lemma_slot_along(rs, s, k - 1);
        assert(rs[(k - 1) + 1].slots()[s] == rs[k - 1].slots()[s]);
    }
}

/// A node that must be evaluated, one of whose inputs is empty and named by
/// no edge into it, makes every execution of it fail: the input is never
/// supplied and the node is not evaluated. This holds where executing its
/// parents cannot reach its slot (`Graph::clear_of_parents`).
pub proof fn law_unsupplied_input_fails<S: Stage>(g: &Graph, r: Registry<S>, x: int, m: int,
    res: Result<Registry<S>, Registry<S>>, d: nat)
    requires
        g.exec_from(r, x, res, d),
        0 <= x < g.nodes().len(),
        r.holds(g.nodes()[x].id as int),
        g.clear_of_parents(x),
        r.node(g.nodes()[x].id as int).needs_eval(),
        0 <= m < r.node(g.nodes()[x].id as int).inputs@.len(),
        r.node(g.nodes()[x].id as int).inputs@[m] is None,
        forall|j: int| 0 <= j < g.incoming_ids(x).len()
            ==> !g.names_input(&r, g.nodes()[x].id as int, #[trigger] g.incoming_ids(x)[j], m),
    ensures
        res is Err,
{
    reveal(Graph::exec_from);
    let c = g.nodes()[x].id as int;
    let rs = choose|rs: Seq<Registry<S>>| g.exec_chain(rs, x, res, (d - 1) as nat) && #[trigger] rs[0] == r;
    let inc = incoming(g.edges(), x);
    if res is Ok && rs.len() > inc.len() {
        assert forall|i: int| 0 <= i < rs.len() - 1 implies #[trigger] rs[i + 1].same_layout(&rs[i]) by {
            assert(g.exec_from(rs[i], inc[i].1, Ok(rs[i + 1]), (d - 1) as nat));
            law_execution_keeps_layout(g, rs[i], inc[i].1, Ok(rs[i + 1]), (d - 1) as nat);
        }
        assert forall|i: int| 0 <= i < rs.len() - 1 implies #[trigger] rs[i + 1].slots()[c] == rs[i].slots()[c] by {
            lemma_layout_along(rs, i);
            assert(!g.upstream_slot(inc[i].1, c));
        }
        lemma_slot_along(rs, c, rs.len() - 1);
        let q = rs.last();
        assert(q.node(c) == r.node(c));
        let r2 = res->Ok_0;
        assert(g.stepped(&q, x, &r2));
        let mid = choose|mid: Node<S>| #[trigger] g.flowed_node(&q, x, mid) && mid.ran_node(&r2.node(c))
            && (mid.needs_eval() ==> g.inputs_covered(&q, c, g.incoming_ids(x)));
        assert(mid.needs_eval());
        assert(q.node(c).inputs@[m] is None);
        assert(!g.inputs_covered(&q, c, g.incoming_ids(x))) by {
            assert forall|j: int| 0 <= j < g.incoming_ids(x).len()
                implies !g.names_input(&q, c, #[trigger] g.incoming_ids(x)[j], m) by {
                assert(!g.names_input(&r, c, g.incoming_ids(x)[j], m));
            }
        }
    }
}

/// A caching node whose flows change nothing (`Graph::copies_unchanged`,
/// with a lawful `==`) and whose input has not changed since its last
/// evaluation is not evaluated again when executed: it keeps its outputs,
/// which it hands on, its state and its cache.
pub proof fn law_unchanged_caching_node_keeps_outputs<S: Stage>(g: &Graph, r: &Registry<S>, x: int, r2: &Registry<S>)
    requires
        S::Value::obeys_eq_spec(),
        g.stepped(r, x, r2),
        g.copies_unchanged(r, g.nodes()[x].id as int, g.incoming_ids(x)),
        !r.node(g.nodes()[x].id as int).input_changed,
        r.node(g.nodes()[x].id as int).reeval_rule != ReevaluationRule::Move,
    ensures
        r2.node(g.nodes()[x].id as int).outputs == r.node(g.nodes()[x].id as int).outputs,
        r2.node(g.nodes()[x].id as int).state == r.node(g.nodes()[x].id as int).state,
        r2.node(g.nodes()[x].id as int).cache == r.node(g.nodes()[x].id as int).cache,
{
    let c = g.nodes()[x].id as int;
    let mid = choose|mid: Node<S>| #[trigger] g.flowed_node(r, x, mid) && mid.ran_node(&r2.node(c))
        && (mid.needs_eval() ==> g.inputs_covered(r, c, g.incoming_ids(x)));
    assert(!mid.needs_eval());
}

/// Flowing data into a node marks it changed whenever a copy brings it a
/// value it did not hold: for an edge from a node that does not move its
/// outputs, the first of the node's incoming edges to name its input, whose
/// output holds a value not equal to the one the input held (or the input
/// was empty), the node after the flow is marked changed, and so it is
/// evaluated when it runs.
pub proof fn law_new_copy_marks_node_changed<S: Stage>(g: &Graph, reg: &Registry<S>, x: int, mid: Node<S>,
    j: int, m: int, k: int)
    requires
        S::Value::obeys_eq_spec(),
        g.flowed_node(reg, x, mid),
        0 <= j < g.incoming_ids(x).len(),
        reg.node(g.source_slot(g.incoming_ids(x)[j])).reeval_rule != ReevaluationRule::Move,
        g.names_input(reg, g.nodes()[x].id as int, g.incoming_ids(x)[j], m),
        forall|j2: int| 0 <= j2 < j ==> !g.names_input(reg, g.nodes()[x].id as int, #[trigger] g.incoming_ids(x)[j2], m),
        reg.node(g.source_slot(g.incoming_ids(x)[j])).available_output(g.edges()[g.incoming_ids(x)[j]].2.source_output) == Some(k),
        match reg.node(g.nodes()[x].id as int).inputs@[m] {
            None => true,
            Some(held) => !reg.node(g.source_slot(g.incoming_ids(x)[j])).outputs@[k].unwrap().eq_spec(&held.0),
        },
    ensures
        mid.input_changed,
        mid.needs_eval(),
{
    let c = g.nodes()[x].id as int;
    assert(g.copies_new_value(reg, c, g.incoming_ids(x), j));
}

/// Some of the first `n` graph entries is urgent and has dag index `v`.
pub open spec fn urgent_entry_index<S: Stage>(map: Seq<(NodeReflection, usize)>, reg: &Registry<S>, n: int, v: usize) -> bool {
    exists|m: int| 0 <= m < n && reg.node((#[trigger] map[m]).0.id as int).eval_strategy == EvalStrategy::Urgent
        && map[m].1 == v
}

/// The urgent nodes that an execution runs are exactly the graph's entries
/// whose stage is urgent, whatever their rule or change mark: every urgent
/// entry's dag index is listed, and every listed index is that of an urgent
/// entry; a non-urgent entry adds nothing.
pub proof fn law_urgent_list_is_the_urgent_entries<S: Stage>(map: Seq<(NodeReflection, usize)>, reg: &Registry<S>, n: int)
    requires
        0 <= n <= map.len(),
    ensures
        forall|m: int| 0 <= m < n && reg.node((#[trigger] map[m]).0.id as int).eval_strategy == EvalStrategy::Urgent
            ==> urgent_upto(map, reg, n).contains(map[m].1),
        forall|i: int| 0 <= i < urgent_upto(map, reg, n).len()
            ==> urgent_entry_index(map, reg, n, #[trigger] urgent_upto(map, reg, n)[i]),
        urgent_upto(map, reg, n).len() <= n,
    decreases n,
{
    if n > 0 {
        law_urgent_list_is_the_urgent_entries(map, reg, n - 1);
        let rest = urgent_upto(map, reg, n - 1);
        let cur = urgent_upto(map, reg, n);
        assert forall|m: int| 0 <= m < n && reg.node((#[trigger] map[m]).0.id as int).eval_strategy == EvalStrategy::Urgent
            implies cur.contains(map[m].1) by {
            if m < n - 1 {
                assert(rest.contains(map[m].1));
                let i = choose|i: int| 0 <= i < rest.len() && rest[i] == map[m].1;
                assert(cur[i] == rest[i]);
            } else {
                assert(cur[cur.len() - 1] == map[m].1);
            }
        }
        assert forall|i: int| 0 <= i < cur.len() implies urgent_entry_index(map, reg, n, #[trigger] cur[i]) by {
            if i < rest.len() {
                assert(cur[i] == rest[i]);
                assert(urgent_entry_index(map, reg, n - 1, rest[i]));
                let m = choose|m: int| 0 <= m < n - 1
                    && reg.node((#[trigger] map[m]).0.id as int).eval_strategy == EvalStrategy::Urgent
                    && map[m].1 == rest[i];
                assert(cur[i] == map[m].1);
            } else {
                assert(reg.node(map[n - 1].0.id as int).eval_strategy == EvalStrategy::Urgent);
                assert(cur[i] == map[n - 1].1);
            }
        }
    } else {
        assert(urgent_upto(map, reg, n).len() == 0);
    }
}

/// A `CacheAll` evaluation answers from its cache, without running the
/// stage (its cache keeps its length), only when some entry was recorded
/// for inputs equal to the node's, slot by slot: both empty, or both
/// holding equal values with the same rule, whatever that rule is.
pub proof fn law_cache_answers_only_equal_inputs<S: Stage>(n: Node<S>, after: Node<S>)
    requires
        S::Value::obeys_eq_spec(),
        n.reeval_rule == ReevaluationRule::CacheAll,
        n.eval_outcome(&after, after.outputs@),
        after.cache@.len() == n.cache@.len(),
    ensures
        exists|j: int| 0 <= j < n.cache@.len() && (#[trigger] n.cache@[j]).inputs@.len() == n.inputs@.len()
            && forall|i: int| 0 <= i < n.inputs@.len() ==> match (#[trigger] n.cache@[j].inputs@[i], n.inputs@[i]) {
                (None, None) => true,
                (Some(a), Some(b)) => a.0.eq_spec(&b.0) && a.1 == b.1,
                _ => false,
            },
{
    lemma_cache_hit(n.cache@, n.inputs@, 0);
    let j = cache_hit(n.cache@, n.inputs@, 0)->0;
    assert(inputs_eq_spec(n.cache@[j].inputs@, n.inputs@));
}

/// The caching flag that comes last among a stage's arguments decides how
/// it caches: `cache_last` and `transparent` keep the last result,
/// `cache_all` keeps every result; other arguments after it change
/// nothing.
pub proof fn law_last_caching_flag_decides(args: Seq<StageArg>, i: int, n: int)
    requires
        0 <= i < n <= args.len(),
        args[i] is Flag,
        forall|j: int| i < j < n ==> !(#[trigger] args[j] matches StageArg::Flag(f)
            && (f@ == "cache_last"@ || f@ == "transparent"@ || f@ == "cache_all"@)),
    ensures
        args[i] matches StageArg::Flag(f) && f@ == "cache_all"@ ==> cache_in(args, n) == CacheStrategy::All,
        args[i] matches StageArg::Flag(f) && (f@ == "cache_last"@ || f@ == "transparent"@)
            ==> cache_in(args, n) == CacheStrategy::Last,
    decreases n - i,
{
    reveal_strlit("cache_all");
    reveal_strlit("cache_last");
    reveal_strlit("transparent");
    if n - 1 > i {
        assert(!(args[n - 1] matches StageArg::Flag(f)
            && (f@ == "cache_last"@ || f@ == "transparent"@ || f@ == "cache_all"@)));
        law_last_caching_flag_decides(args, i, n - 1);
    } else {
        let f = args[i]->Flag_0;
        assert(args[n - 1] == StageArg::Flag(f));
        if f@ == "cache_all"@ {
            assert("cache_all"@.len() == 9);
            assert("cache_last"@.len() == 10);
            assert("transparent"@.len() == 11);
            assert(f@ != "cache_last"@ && f@ != "transparent"@);
        }
    }
}

/// Without any caching flag among its arguments a stage caches nothing.
pub proof fn law_no_caching_flag_caches_nothing(args: Seq<StageArg>, n: int)
    requires
        0 <= n <= args.len(),
        forall|j: int| 0 <= j < n ==> !(#[trigger] args[j] matches StageArg::Flag(f)
            && (f@ == "cache_last"@ || f@ == "transparent"@ || f@ == "cache_all"@)),
    ensures
        cache_in(args, n) == CacheStrategy::NoCache,
    decreases n,
{
    if n > 0 {
        assert(!(args[n - 1] matches StageArg::Flag(f)
            && (f@ == "cache_last"@ || f@ == "transparent"@ || f@ == "cache_all"@)));
        law_no_caching_flag_caches_nothing(args, n - 1);
    }
}

/// A parameter's clean name loses exactly one leading `_` and nothing else:
/// a name that does not start with `_` is kept whole, whatever it holds
/// (underscores inside included), and cleaning `_` followed by a name gives
/// that name back.
pub proof fn law_clean_name_drops_only_a_leading_underscore(name: Seq<char>)
    ensures
        name.len() == 0 || name[0] != '_' ==> clean_name(name) == name,
        clean_name(seq!['_'] + name) == name,
        clean_name(name).len() + 1 >= name.len(),
{
    assert((seq!['_'] + name).drop_first() =~= name);
    assert((seq!['_'] + name)[0] == '_');
}


} // verus!
