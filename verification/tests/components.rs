use directed::config::{CacheStrategy, FnArg, FnSignature, OutputParams, ParamLike, StageArg, StageConfig};
use directed::error::{EdgeCreationError, GraphTrace, InjectionError, NodeExecutionError};
use directed::graphs::{EdgeInfo, Graph};
use directed::node::{DynFields, Node};
use directed::registry::{NodeReflection, Registry};
use directed::stage::{EvalStrategy, RefType, ReevaluationRule, Stage, StageShape, TypeReflection};
use directed::text::{push_decimal, push_replaced, str_eq, type_accepts};

#[derive(Clone, Debug, PartialEq)]
enum Val {
    Int(i32),
    Text(String),
}

#[derive(Clone)]
struct Fixed {
    shape: &'static StageShape,
    lazy: bool,
    rule: ReevaluationRule,
}

impl Stage for Fixed {
    type Value = Val;
    type State = u32;

    fn shape(&self) -> &'static StageShape {
        self.shape
    }

    fn eval_strategy(&self) -> EvalStrategy {
        if self.lazy { EvalStrategy::Lazy } else { EvalStrategy::Urgent }
    }

    fn reeval_rule(&self) -> ReevaluationRule {
        self.rule
    }

    /// Counts its calls in its state and sums its integer arguments.
    fn call(&self, state: &u32, args: &Vec<Val>) -> (Vec<Option<Val>>, u32) {
        let next = *state + 1;
        let sum: i32 = args.iter().map(|a| if let Val::Int(i) = a { *i } else { 0 }).sum();
        (vec![Some(Val::Int(sum + next as i32 * 100))], next)
    }
}

static NUM_SOURCE: StageShape = StageShape { stage_name: "NumSource", inputs: &[], outputs: &[TypeReflection { name: "_", ty: "i32" }] };
static NUM_SINK: StageShape = StageShape {
    stage_name: "NumSink",
    inputs: &[TypeReflection { name: "x", ty: "i32" }, TypeReflection { name: "y", ty: "& i32" }],
    outputs: &[TypeReflection { name: "_", ty: "i32" }],
};
static TEXT_SOURCE: StageShape = StageShape { stage_name: "TextSource", inputs: &[], outputs: &[TypeReflection { name: "_", ty: "String" }] };
static NAMED_OUT: StageShape = StageShape {
    stage_name: "NamedOut",
    inputs: &[],
    outputs: &[TypeReflection { name: "first", ty: "i32" }, TypeReflection { name: "second", ty: "i32" }],
};

fn fixed(shape: &'static StageShape, lazy: bool, rule: ReevaluationRule) -> Fixed {
    Fixed { shape, lazy, rule }
}

#[test]
fn str_eq_compares_characters() {
    assert!(str_eq("abc", "abc"));
    assert!(!str_eq("abc", "abd"));
    assert!(!str_eq("abc", "ab"));
    assert!(str_eq("", ""));
}

#[test]
fn type_accepts_strips_borrows() {
    assert!(type_accepts("i32", "i32"));
    assert!(type_accepts("i32", "& i32"));
    assert!(type_accepts("i32", "& mut i32"));
    assert!(!type_accepts("String", "i32"));
    assert!(!type_accepts("& i32", "i32"));
}

#[test]
fn decimal_and_replacement() {
    let mut s = String::from("n=");
    push_decimal(&mut s, 0);
    s.push(',');
    push_decimal(&mut s, 4207);
    assert_eq!(s, "n=0,4207");
    let mut t = String::new();
    push_replaced(&mut t, "a |-|.|:|/|\\b |-|.|:|/|\\", " |-|.|:|/|\\", "_");
    assert_eq!(t, "a_b_");
    let mut u = String::new();
    push_replaced(&mut u, "my field.name", " |-|.|:|/|\\", "_");
    assert_eq!(u, "my field.name");
}

#[test]
fn fields_are_found_by_name() {
    assert_eq!(NUM_SINK.input_named("y").map(|f| f.ty), Some("& i32"));
    assert!(NUM_SINK.input_named("z").is_none());
    assert_eq!(NAMED_OUT.output_named("second").map(|f| f.name), Some("second"));
    assert_eq!(NUM_SINK.inputs[0].display(), "x: i32");
}

#[test]
fn new_node_is_empty_and_changed() {
    let node = Node::new(fixed(&NUM_SINK, true, ReevaluationRule::CacheLast), 0u32);
    assert_eq!(node.inputs.len(), 2);
    assert!(node.inputs.iter().all(|i| i.is_none()));
    assert_eq!(node.outputs.len(), 1);
    assert!(node.input_changed());
    assert_eq!(node.eval_strategy(), EvalStrategy::Lazy);
    assert_eq!(node.reeval_rule(), ReevaluationRule::CacheLast);
    assert_eq!(node.stage_shape().stage_name, "NumSink");
}

#[test]
fn move_parent_hands_its_output_over() {
    let mut parent = Node::new(fixed(&NUM_SOURCE, false, ReevaluationRule::Move), 0u32);
    let mut child = Node::new(fixed(&NUM_SINK, false, ReevaluationRule::Move), 0u32);
    parent.eval().unwrap();
    assert_eq!(parent.outputs[0], Some(Val::Int(100)));
    child.input_changed = false;
    parent.flow_data(&mut child, None, Some(&NUM_SINK.inputs[0])).unwrap();
    assert_eq!(parent.outputs[0], None);
    assert_eq!(child.inputs[0], Some((Val::Int(100), ReevaluationRule::Move)));
    assert!(child.input_changed);
    // The output is gone: flowing again finds nothing.
    let again = parent.flow_data(&mut child, None, Some(&NUM_SINK.inputs[1]));
    assert!(matches!(again, Err(InjectionError::OutputNotFound(None))));
}

#[test]
fn caching_parent_hands_a_copy_and_marks_only_changes() {
    let mut parent = Node::new(fixed(&NUM_SOURCE, false, ReevaluationRule::CacheLast), 0u32);
    let mut child = Node::new(fixed(&NUM_SINK, false, ReevaluationRule::CacheLast), 0u32);
    parent.eval().unwrap();
    child.input_changed = false;
    parent.flow_data(&mut child, None, Some(&NUM_SINK.inputs[1])).unwrap();
    assert_eq!(parent.outputs[0], Some(Val::Int(100)));
    assert_eq!(child.inputs[1], Some((Val::Int(100), ReevaluationRule::CacheLast)));
    assert!(child.input_changed);
    // The same value again does not mark the child.
    child.input_changed = false;
    parent.flow_data(&mut child, None, Some(&NUM_SINK.inputs[1])).unwrap();
    assert!(!child.input_changed);
    // A different value does.
    parent.eval().unwrap();
    parent.flow_data(&mut child, None, Some(&NUM_SINK.inputs[1])).unwrap();
    assert_eq!(child.inputs[1], Some((Val::Int(200), ReevaluationRule::CacheLast)));
    assert!(child.input_changed);
}

#[test]
fn flow_errors() {
    let mut text = Node::new(fixed(&TEXT_SOURCE, false, ReevaluationRule::CacheLast), 0u32);
    let mut child = Node::new(fixed(&NUM_SINK, false, ReevaluationRule::Move), 0u32);
    // Nothing evaluated yet: no output.
    assert!(matches!(text.flow_data(&mut child, None, Some(&NUM_SINK.inputs[0])), Err(InjectionError::OutputNotFound(None))));
    text.outputs[0] = Some(Val::Text("hi".to_string()));
    // Wrong type; the caching parent keeps its output.
    assert!(matches!(text.flow_data(&mut child, None, Some(&NUM_SINK.inputs[0])), Err(InjectionError::OutputTypeMismatch(None))));
    assert!(text.outputs[0].is_some());
    // An input the child does not have.
    static STRANGER: TypeReflection = TypeReflection { name: "z", ty: "i32" };
    assert!(matches!(text.flow_data(&mut child, None, Some(&STRANGER)), Err(InjectionError::InputNotFound(None))));
    // A connection without data does nothing.
    assert!(text.flow_data(&mut child, None, None).is_ok());
    assert!(child.inputs.iter().all(|i| i.is_none()));
    // A named output selected on a stage with only the unnamed one.
    let mut named = Node::new(fixed(&NAMED_OUT, false, ReevaluationRule::Move), 0u32);
    named.outputs[1] = Some(Val::Int(5));
    assert!(matches!(named.flow_data(&mut child, None, Some(&NUM_SINK.inputs[0])), Err(InjectionError::OutputNotFound(None))));
    named.flow_data(&mut child, Some(&NAMED_OUT.outputs[1]), Some(&NUM_SINK.inputs[0])).unwrap();
    assert_eq!(child.inputs[0], Some((Val::Int(5), ReevaluationRule::Move)));
}

#[test]
fn evaluation_needs_every_input() {
    let mut node = Node::new(fixed(&NUM_SINK, false, ReevaluationRule::Move), 0u32);
    node.inputs[0] = Some((Val::Int(1), ReevaluationRule::Move));
    match node.eval() {
        Err(InjectionError::InputNotFound(Some(field))) => assert_eq!(field.name, "y"),
        other => panic!("unexpected {:?}", other),
    }
    // A moving node took the inputs before the missing one.
    assert!(node.inputs[0].is_none());
    assert_eq!(node.state, 0);
    node.inputs[0] = Some((Val::Int(1), ReevaluationRule::Move));
    node.inputs[1] = Some((Val::Int(2), ReevaluationRule::Move));
    let before = node.eval().unwrap();
    assert_eq!(before, vec![None]);
    assert_eq!(node.outputs, vec![Some(Val::Int(103))]);
    assert!(node.inputs.iter().all(|i| i.is_none()));
}

#[test]
fn cache_all_answers_equal_inputs_from_cache() {
    let mut node = Node::new(fixed(&NUM_SINK, false, ReevaluationRule::CacheAll), 0u32);
    node.inputs[0] = Some((Val::Int(1), ReevaluationRule::CacheLast));
    node.inputs[1] = Some((Val::Int(2), ReevaluationRule::CacheLast));
    assert_eq!(node.evaluate().unwrap(), vec![Some(Val::Int(103))]);
    assert_eq!(node.cache.len(), 1);
    assert_eq!(node.evaluate().unwrap(), vec![Some(Val::Int(103))]);
    assert_eq!(node.state, 1);
    node.inputs[1] = Some((Val::Int(5), ReevaluationRule::CacheLast));
    assert_eq!(node.evaluate().unwrap(), vec![Some(Val::Int(206))]);
    assert_eq!(node.cache.len(), 2);
    node.inputs[1] = Some((Val::Int(2), ReevaluationRule::CacheLast));
    assert_eq!(node.evaluate().unwrap(), vec![Some(Val::Int(103))]);
    assert_eq!(node.state, 2);
    // Inputs are kept.
    assert!(node.inputs.iter().all(|i| i.is_some()));
}

#[test]
fn run_skips_a_settled_caching_node() {
    let mut node = Node::new(fixed(&NUM_SOURCE, false, ReevaluationRule::CacheLast), 0u32);
    assert_eq!(node.run().unwrap(), true);
    assert!(!node.input_changed);
    assert_eq!(node.run().unwrap(), false);
    assert_eq!(node.state, 1);
    node.set_input_changed(true);
    assert_eq!(node.run().unwrap(), true);
    assert_eq!(node.state, 2);
    let mut moving = Node::new(fixed(&NUM_SOURCE, false, ReevaluationRule::Move), 0u32);
    moving.run().unwrap();
    moving.run().unwrap();
    assert_eq!(moving.state, 2);
}

#[test]
fn dyn_fields_select_slots_by_label() {
    let mut slots: Vec<Option<Val>> = vec![Some(Val::Int(1)), Some(Val::Int(2))];
    assert_eq!(slots.field(NAMED_OUT.outputs, Some(&NAMED_OUT.outputs[1])), Some(&Val::Int(2)));
    assert_eq!(slots.field(NAMED_OUT.outputs, None), None);
    assert_eq!(slots.take_field(NAMED_OUT.outputs, Some(&NAMED_OUT.outputs[0])), Some(Val::Int(1)));
    assert_eq!(slots, vec![None, Some(Val::Int(2))]);
    if let Some(v) = slots.field_mut(NAMED_OUT.outputs, Some(&NAMED_OUT.outputs[1])) {
        *v = Val::Int(5);
    }
    assert_eq!(slots, vec![None, Some(Val::Int(5))]);
    assert!(slots.field_mut(NAMED_OUT.outputs, Some(&NAMED_OUT.outputs[0])).is_none());
    assert!(slots.field_mut(NAMED_OUT.outputs, None).is_none());
    let mut unnamed: Vec<Option<Val>> = vec![Some(Val::Int(9))];
    assert_eq!(unnamed.field(NUM_SOURCE.outputs, None), Some(&Val::Int(9)));
    assert_eq!(unnamed.field(NUM_SOURCE.outputs, Some(&NUM_SOURCE.outputs[0])), None);
    let old = unnamed.replace(vec![None]);
    assert_eq!(old, vec![Some(Val::Int(9))]);
    assert_eq!(unnamed, vec![None]);
}

#[test]
fn registry_slots_and_pairs() {
    let mut registry: Registry<Fixed> = Registry::new();
    let a = registry.register(fixed(&NUM_SOURCE, false, ReevaluationRule::Move));
    let b = registry.register_with_state(fixed(&NUM_SINK, false, ReevaluationRule::Move), 7);
    assert_eq!(a.index(), 0);
    assert_eq!(b.index(), 1);
    assert_eq!(registry.len(), 2);
    assert_eq!(*registry.state(b).unwrap(), 7);
    *registry.state_mut(b).unwrap() = 9;
    assert_eq!(*registry.state(b).unwrap(), 9);
    // The pair comes back as (node at the second id, node at the first id).
    {
        let (first, second) = registry.get2_nodes_any_mut(a.reflection(), b.reflection()).unwrap();
        assert_eq!(first.shape.stage_name, "NumSink");
        assert_eq!(second.shape.stage_name, "NumSource");
        second.state = 3;
    }
    assert_eq!(*registry.state(a).unwrap(), 3);
    let far = NodeReflection { id: 5, shape: &NUM_SOURCE };
    let err = registry.get2_nodes_any_mut(a.reflection(), far).err().unwrap();
    assert_eq!(err.0, vec![far]);
    let taken = registry.take_node(a.reflection()).unwrap();
    let err = registry.get2_nodes_any_mut(a.reflection(), b.reflection()).err().unwrap();
    assert_eq!(err.0, vec![a.reflection()]);
    // The error lists exactly the missing ids.
    let err = registry.get2_nodes_any_mut(b.reflection(), a.reflection()).err().unwrap();
    assert_eq!(err.0, vec![a.reflection()]);
    let at_end = NodeReflection { id: 2, shape: &NUM_SOURCE };
    let err = registry.get2_nodes_any_mut(at_end, far).err().unwrap();
    assert_eq!(err.0, vec![at_end, far]);
    let err = registry.get2_nodes_any_mut(b.reflection(), at_end).err().unwrap();
    assert_eq!(err.0, vec![at_end]);
    registry.replace_node(a.reflection(), taken);
    assert!(registry.get_node_any(a.reflection()).is_some());
    registry.get_inputs_mut(b).unwrap()[0] = Some((Val::Int(4), ReevaluationRule::Move));
    assert_eq!(registry.get_inputs(b).unwrap()[0], Some((Val::Int(4), ReevaluationRule::Move)));
    registry.get_outputs_mut(a).unwrap()[0] = Some(Val::Int(8));
    assert_eq!(registry.get_outputs(a).unwrap()[0], Some(Val::Int(8)));
    assert!(registry.take_node(far).is_none());
    assert!(registry.get_node_by_id(b.reflection()).is_some());
}

#[test]
fn graph_structure() {
    let mut registry: Registry<Fixed> = Registry::new();
    let a = registry.register(fixed(&NUM_SOURCE, true, ReevaluationRule::Move));
    let b = registry.register(fixed(&NUM_SINK, false, ReevaluationRule::Move));
    let c = registry.register(fixed(&NUM_SINK, false, ReevaluationRule::Move));
    let mut graph = Graph::from_node_ids(&[a.reflection(), b.reflection()]);
    assert!(matches!(graph.connect(a, c, None, Some(&NUM_SINK.inputs[0])), Err(EdgeCreationError::NodesNotFound(_))));
    assert!(matches!(graph.connect(a, a, None, None), Err(EdgeCreationError::CycleError(_))));
    graph.connect(a, b, None, Some(&NUM_SINK.inputs[0])).unwrap();
    graph.connect(a, b, None, Some(&NUM_SINK.inputs[1])).unwrap();
    assert_eq!(graph.add_node(c.reflection()), 2);
    graph.connect(b, c, None, Some(&NUM_SINK.inputs[0])).unwrap();
    assert!(matches!(graph.connect(c, a, None, None), Err(EdgeCreationError::CycleError(_))));
    // Parents come newest first.
    assert_eq!(graph.parents(1), vec![(1, 0), (0, 0)]);
    assert_eq!(graph.get_node_id_from_node_index(2).unwrap(), c.reflection());
    assert!(graph.get_node_id_from_node_index(3).is_err());
    assert_eq!(graph.urgent_nodes(&registry).unwrap(), vec![1, 2]);
    assert!(graph.has_distinct_ends());
    assert!(graph.held_by_registry(&registry));
    let trace = graph.generate_trace(&registry);
    assert_eq!(trace.nodes.len(), 3);
    assert_eq!(trace.connections.len(), 3);
    assert_eq!(trace.connections[2].source_id, b.reflection());
}

#[test]
fn execute_reports_missing_registry_nodes() {
    let mut registry: Registry<Fixed> = Registry::new();
    let a = registry.register(fixed(&NUM_SOURCE, false, ReevaluationRule::Move));
    let stranger = NodeReflection { id: 4, shape: &NUM_SOURCE };
    let graph = Graph::from_node_ids(&[a.reflection(), stranger]);
    assert!(!graph.held_by_registry(&registry));
    let err = graph.execute(&mut registry).unwrap_err();
    match err.error {
        NodeExecutionError::NodesNotFoundInRegistry(nf) => assert_eq!(nf.0, vec![stranger]),
        other => panic!("unexpected {:?}", other),
    }
    assert!(err.graph_trace.is_some());
    // Nothing was evaluated.
    assert_eq!(*registry.state(a).unwrap(), 0);
}

#[test]
fn lazy_nodes_without_urgent_descendants_stay_untouched() {
    let mut registry: Registry<Fixed> = Registry::new();
    let lazy = registry.register(fixed(&NUM_SOURCE, true, ReevaluationRule::Move));
    let urgent = registry.register(fixed(&NUM_SOURCE, false, ReevaluationRule::Move));
    let graph = Graph::from_node_ids(&[lazy.reflection(), urgent.reflection()]);
    graph.execute(&mut registry).unwrap();
    graph.execute(&mut registry).unwrap();
    assert_eq!(*registry.state(lazy).unwrap(), 0);
    assert_eq!(*registry.state(urgent).unwrap(), 2);
}

#[test]
fn cached_chain_is_evaluated_once() {
    let mut registry: Registry<Fixed> = Registry::new();
    let source = registry.register(fixed(&NUM_SOURCE, true, ReevaluationRule::CacheLast));
    let sink = registry.register(fixed(&NUM_SINK, false, ReevaluationRule::CacheLast));
    let mut graph = Graph::from_node_ids(&[source.reflection(), sink.reflection()]);
    graph.connect(source, sink, None, Some(&NUM_SINK.inputs[0])).unwrap();
    graph.connect(source, sink, None, Some(&NUM_SINK.inputs[1])).unwrap();
    for _ in 0..3 {
        graph.execute(&mut registry).unwrap();
    }
    assert_eq!(*registry.state(source).unwrap(), 1);
    assert_eq!(*registry.state(sink).unwrap(), 1);
    assert_eq!(registry.get_outputs(sink).unwrap()[0], Some(Val::Int(300)));
    assert!(!registry.get_node(sink).unwrap().input_changed);
}

#[test]
fn mermaid_diagram_text() {
    let mut registry: Registry<Fixed> = Registry::new();
    let a = registry.register(fixed(&NUM_SOURCE, true, ReevaluationRule::Move));
    let b = registry.register(fixed(&NUM_SINK, false, ReevaluationRule::Move));
    let mut graph = Graph::from_node_ids(&[a.reflection(), b.reflection()]);
    graph.connect(a, b, None, Some(&NUM_SINK.inputs[1])).unwrap();
    let mut trace: GraphTrace = graph.generate_trace(&registry);
    trace.highlight_node(b.reflection());
    trace.highlight_connection(a.reflection(), None, b.reflection(), Some(&NUM_SINK.inputs[1]));
    let expected = "```mermaid\n\
flowchart TB\n    subgraph Node_0_[\"Node 0 (NumSource)\"]\n        0_out__[\\\"_: i32\"/]\n    end\n    subgraph Node_1_[\"Node 1 (NumSink)\"]\n        1_in_x[/\"x: i32\"\\]\n        1_in_y[/\"y: & i32\"\\]\n        1_out__[\\\"_: i32\"/]\n    end\n    style Node_1_ stroke:yellow,stroke-width:3;\n    0_out__ --> 1_in_y\n    linkStyle 0 stroke:yellow,stroke-width:3;\n```\n";
    assert_eq!(trace.create_mermaid_graph(), expected);
    assert!(trace.nodes[1].highlighted);
    assert!(!trace.nodes[0].highlighted);
    assert!(trace.connections[0].highlighted);
    let copy = trace.duplicate();
    assert_eq!(copy.nodes.len(), 2);
}

#[test]
fn edge_info_is_plain_data() {
    let info = EdgeInfo { source_output: None, target_input: Some(&NUM_SINK.inputs[0]) };
    assert!(info.source_output.is_none());
    assert_eq!(info.target_input.unwrap().name, "x");
}

fn signature(output: Option<&str>, inputs: Vec<FnArg>) -> FnSignature {
    FnSignature { name: "MyStage".to_string(), is_async: false, output: output.map(|s| s.to_string()), inputs }
}

fn typed(name: &str, ty: &str) -> FnArg {
    FnArg::Typed { ident: Some(name.to_string()), ty: ty.to_string() }
}

#[test]
fn stage_attribute_configuration() {
    let sig = signature(Some("String"), vec![typed("input", "String"), typed("_unused", "& i32"), FnArg::Receiver, typed("m", "& mut Vec < u8 >")]);
    let args = vec![StageArg::Flag("lazy".to_string()), StageArg::Flag("cache_all".to_string()), StageArg::Flag("cache_last".to_string())];
    let config = StageConfig::from_args(&sig, &args).unwrap();
    assert_eq!(config.stage_name, "MyStage");
    assert!(config.is_lazy);
    assert_eq!(config.cache_strategy, CacheStrategy::Last);
    assert_eq!(config.eval_strategy(), EvalStrategy::Lazy);
    assert_eq!(config.reeval_rule(), ReevaluationRule::CacheLast);
    assert!(matches!(&config.outputs, OutputParams::Implicit(t) if t == "String"));
    assert_eq!(config.inputs.len(), 3);
    assert_eq!(config.inputs[1].clean_name, "unused");
    assert_eq!(config.inputs[1].ref_type, RefType::Borrowed);
    assert_eq!(config.inputs[2].ref_type, RefType::BorrowedMut);
    assert_eq!(config.inputs[0].ref_type, RefType::Owned);
    assert!(config.state_has_default());
}

#[test]
fn stage_attribute_outputs_and_state() {
    let sig = signature(None, vec![]);
    let args = vec![
        StageArg::Output(vec![ParamLike { name: "number".to_string(), ty: "i32".to_string() }]),
        StageArg::State(vec![ParamLike { name: "state".to_string(), ty: "(u8, u8)".to_string() }]),
        StageArg::Output(vec![ParamLike { name: "text".to_string(), ty: "String".to_string() }]),
    ];
    let config = StageConfig::from_args(&sig, &args).unwrap();
    match &config.outputs {
        OutputParams::Explicit(list) => {
            assert_eq!(list.len(), 2);
            assert_eq!(list[0].name, "number");
            assert_eq!(list[1].name, "text");
        }
        _ => panic!("expected named outputs"),
    }
    assert_eq!(config.states.len(), 1);
    assert!(!config.state_has_default());
    assert!(!config.is_lazy);
    assert_eq!(config.eval_strategy(), EvalStrategy::Urgent);
    assert_eq!(config.reeval_rule(), ReevaluationRule::Move);
    let plain = StageConfig::from_args(&sig, &vec![]).unwrap();
    assert!(matches!(&plain.outputs, OutputParams::Implicit(t) if t == "()"));
    assert_eq!(plain.cache_strategy, CacheStrategy::NoCache);
}

#[test]
fn stage_attribute_rejects_unknown_flags() {
    let sig = signature(None, vec![]);
    let args = vec![StageArg::Flag("lazy".to_string()), StageArg::Flag("bogus".to_string()), StageArg::Flag("other".to_string())];
    let err = StageConfig::from_args(&sig, &args).err().unwrap();
    assert_eq!(err, "Unrecognized attribute: bogus");
}

#[test]
fn transparent_flag_caches_the_last_inputs() {
    let sig = signature(Some("String"), vec![typed("input", "String")]);
    let args = vec![StageArg::Flag("lazy".to_string()), StageArg::Flag("transparent".to_string())];
    let config = StageConfig::from_args(&sig, &args).unwrap();
    assert!(config.is_lazy);
    assert_eq!(config.cache_strategy, CacheStrategy::Last);
    assert_eq!(config.reeval_rule(), ReevaluationRule::CacheLast);
}

#[test]
fn stage_arguments_from_their_parts() {
    let pair = || vec![ParamLike { name: "n".to_string(), ty: "i32".to_string() }];
    assert!(matches!(StageArg::from_parts(&"out".to_string(), Some(pair())), Ok(StageArg::Output(list)) if list.len() == 1 && list[0].name == "n"));
    assert!(matches!(StageArg::from_parts(&"state".to_string(), Some(pair())), Ok(StageArg::State(list)) if list[0].ty == "i32"));
    assert!(matches!(StageArg::from_parts(&"lazy".to_string(), None), Ok(StageArg::Flag(f)) if f == "lazy"));
    assert_eq!(StageArg::from_parts(&"out".to_string(), None).err().unwrap(), "expected parentheses");
    assert_eq!(StageArg::from_parts(&"state".to_string(), None).err().unwrap(), "expected parentheses");
    assert_eq!(StageArg::from_parts(&"lazy".to_string(), Some(pair())).err().unwrap(), "expected `,`");
}

#[test]
fn registration_and_unregistration_keep_other_slots() {
    let mut registry: Registry<Fixed> = Registry::new();
    let a = registry.register(fixed(&NUM_SOURCE, false, ReevaluationRule::Move));
    let b = registry.register(fixed(&NUM_SINK, false, ReevaluationRule::Move));
    *registry.state_mut(a).unwrap() = 5;
    // The new id named nothing before, and the old node is untouched.
    assert_eq!(b.index(), 1);
    assert_eq!(*registry.state(a).unwrap(), 5);
    assert!(registry.get_node(b).is_some());
    // Unregistering with the wrong stage is refused and changes nothing.
    assert!(registry.unregister(b.reflection(), &NUM_SOURCE).is_err());
    assert!(registry.get_node(b).is_some());
    let removed = registry.unregister(b.reflection(), &NUM_SINK).unwrap().unwrap();
    assert_eq!(removed.shape.stage_name, "NumSink");
    assert!(registry.get_node(b).is_none());
    assert_eq!(registry.len(), 2);
    assert_eq!(*registry.state(a).unwrap(), 5);
    registry.unregister_and_drop(a.reflection()).unwrap();
    assert!(registry.get_node(a).is_none());
    let c = registry.register(fixed(&NUM_SOURCE, false, ReevaluationRule::Move));
    assert_eq!(c.index(), 2);
    let err = registry.unregister_and_drop(NodeReflection { id: 9, shape: &NUM_SOURCE }).unwrap_err();
    assert!(matches!(err, directed::error::RegistryError::NodesNotFoundInRegistry(nf) if nf.0.len() == 1 && nf.0[0].id == 9));
    let listed = directed::error::NodesNotFoundError::from_slice(&[a.reflection(), c.reflection()]);
    assert_eq!(listed.0, vec![a.reflection(), c.reflection()]);
}

#[test]
fn borrows_with_lifetimes() {
    assert!(type_accepts("i32", "& 'a mut i32"));
    assert!(type_accepts("i32", "& 'a i32"));
    assert!(type_accepts("mutable", "& mutable"));
    assert_eq!(directed::text::borrow_prefix_length("& 'a mut Vec < u8 >"), 9);
    assert_eq!(directed::text::borrow_prefix_length("& 'static str"), 10);
    assert_eq!(directed::text::borrow_prefix_length("String"), 0);
    assert_eq!(directed::config::ref_type_from(&"& 'a mut T".to_string()), RefType::BorrowedMut);
    assert_eq!(directed::config::ref_type_from(&"& 'a T".to_string()), RefType::Borrowed);
    assert_eq!(directed::config::ref_type_from(&"T".to_string()), RefType::Owned);
}

#[test]
fn stage_shape_from_its_configuration() {
    let sig = FnSignature { name: "SimpleStage".to_string(), is_async: false, output: Some("i32".to_string()), inputs: vec![] };
    let config = StageConfig::from_args(&sig, &vec![]).unwrap();
    assert_eq!(config.eval_strategy(), EvalStrategy::Urgent);
    assert_eq!(config.reeval_rule(), ReevaluationRule::Move);
    let shape = config.shape();
    assert_eq!(shape.stage_name, "SimpleStage");
    assert!(shape.inputs.is_empty());
    assert_eq!(shape.outputs.len(), 1);
    assert_eq!(shape.outputs[0].name, "_");
    assert_eq!(shape.outputs[0].ty, "i32");
    let sig = signature(None, vec![typed("_a", "& 'x mut u8"), typed("b", "String")]);
    let args = vec![StageArg::Output(vec![ParamLike { name: "n".to_string(), ty: "i32".to_string() }])];
    let shape = StageConfig::from_args(&sig, &args).unwrap().shape();
    assert_eq!(shape.inputs.len(), 2);
    assert_eq!(shape.inputs[0].name, "a");
    assert_eq!(shape.inputs[0].ty, "& 'x mut u8");
    assert_eq!(shape.outputs[0].name, "n");
}

static SOURCE_TWIN: StageShape = StageShape { stage_name: "NumSource", inputs: &[], outputs: &[TypeReflection { name: "_", ty: "String" }] };

#[test]
fn stages_are_told_apart_by_their_whole_shape() {
    let mut registry: Registry<Fixed> = Registry::new();
    let a = registry.register(fixed(&NUM_SOURCE, false, ReevaluationRule::Move));
    let twin = directed::registry::NodeId { id: a.id, shape: &SOURCE_TWIN };
    assert!(registry.get_node(a).is_some());
    assert!(registry.get_node(twin).is_none());
    assert!(registry.validate_node_type(a.reflection(), &SOURCE_TWIN).is_err());
    assert!(directed::stage::shape_eq(&NUM_SOURCE, &NUM_SOURCE));
    assert!(!directed::stage::shape_eq(&NUM_SOURCE, &SOURCE_TWIN));
    // A taken slot gives nothing more.
    assert!(registry.take_node(a.reflection()).is_some());
    assert!(registry.take_node(a.reflection()).is_none());
}

static TWO_OUTPUTS: StageShape = StageShape {
    stage_name: "TwoOutputs",
    inputs: &[],
    outputs: &[TypeReflection { name: "a", ty: "i32" }, TypeReflection { name: "b", ty: "i32" }],
};

#[test]
fn outputs_are_fitted_to_the_declared_slots() {
    let mut node = Node::new(fixed(&TWO_OUTPUTS, false, ReevaluationRule::Move), 0u32);
    node.eval().unwrap();
    assert_eq!(node.outputs, vec![Some(Val::Int(100)), None]);
    assert_eq!(node.state, 1);
}

#[test]
fn flow_into_fills_inputs_without_evaluating() {
    let mut registry: Registry<Fixed> = Registry::new();
    let a = registry.register(fixed(&NUM_SOURCE, false, ReevaluationRule::CacheLast));
    let b = registry.register(fixed(&NUM_SINK, false, ReevaluationRule::Move));
    let mut graph = Graph::from_node_ids(&[a.reflection(), b.reflection()]);
    graph.connect(a, b, None, Some(&NUM_SINK.inputs[0])).unwrap();
    graph.connect(a, b, None, Some(&NUM_SINK.inputs[1])).unwrap();
    registry.get_node_mut(a).unwrap().run().unwrap();
    let trace = graph.generate_trace(&registry);
    graph.flow_into(&mut registry, 1, &trace).unwrap();
    let sink = registry.get_node(b).unwrap();
    assert_eq!(sink.inputs[0], Some((Val::Int(100), ReevaluationRule::CacheLast)));
    assert_eq!(sink.inputs[1], Some((Val::Int(100), ReevaluationRule::CacheLast)));
    assert_eq!(sink.state, 0);
    assert!(sink.outputs.iter().all(|o| o.is_none()));
}

static QUIET: StageShape = StageShape { stage_name: "Quiet", inputs: &[], outputs: &[] };

#[test]
fn dataless_graph_runs_every_stage_in_order() {
    let mut registry: Registry<Fixed> = Registry::new();
    let a = registry.register(fixed(&QUIET, true, ReevaluationRule::Move));
    let b = registry.register(fixed(&QUIET, true, ReevaluationRule::Move));
    let c = registry.register(fixed(&QUIET, false, ReevaluationRule::Move));
    let mut graph = Graph::from_node_ids(&[a.reflection(), b.reflection(), c.reflection()]);
    graph.connect(a, b, None, None).unwrap();
    graph.connect(b, c, None, None).unwrap();
    graph.connect(a, c, None, None).unwrap();
    assert_eq!(graph.node_count(), 3);
    assert_eq!(graph.edge_count(), 3);
    assert!(graph.has_distinct_ends_into(2));
    graph.execute(&mut registry).unwrap();
    // The lazy source runs once per path to the urgent node.
    assert_eq!(*registry.state(a).unwrap(), 2);
    assert_eq!(*registry.state(b).unwrap(), 1);
    assert_eq!(*registry.state(c).unwrap(), 1);
}

#[test]
fn flowed_values_follow_the_parents_rule() {
    let mut registry: Registry<Fixed> = Registry::new();
    let mover = registry.register(fixed(&NUM_SOURCE, false, ReevaluationRule::Move));
    let sink = registry.register(fixed(&NUM_SINK, false, ReevaluationRule::Move));
    let mut graph = Graph::from_node_ids(&[mover.reflection(), sink.reflection()]);
    graph.connect(mover, sink, None, Some(&NUM_SINK.inputs[0])).unwrap();
    registry.get_node_mut(mover).unwrap().run().unwrap();
    registry.get_inputs_mut(sink).unwrap()[0] = Some((Val::Int(7), ReevaluationRule::CacheLast));
    let trace = graph.generate_trace(&registry);
    graph.flow_into(&mut registry, 1, &trace).unwrap();
    // A moving parent hands its value over and its output slot is emptied,
    // even where the input already held a value.
    assert_eq!(registry.get_inputs(sink).unwrap()[0], Some((Val::Int(100), ReevaluationRule::Move)));
    assert_eq!(registry.get_outputs(mover).unwrap()[0], None);
    // Flowing again finds the output empty.
    let err = graph.flow_into(&mut registry, 1, &trace).unwrap_err();
    assert!(matches!(err.error, NodeExecutionError::InputInjection(InjectionError::OutputNotFound(None))));
    assert!(err.graph_trace.unwrap().connections[0].highlighted);
}

#[test]
fn a_failed_flow_stops_at_the_first_failing_edge() {
    let mut registry: Registry<Fixed> = Registry::new();
    let text = registry.register(fixed(&TEXT_SOURCE, false, ReevaluationRule::CacheLast));
    let num = registry.register(fixed(&NUM_SOURCE, false, ReevaluationRule::CacheLast));
    let sink = registry.register(fixed(&NUM_SINK, false, ReevaluationRule::Move));
    let mut graph = Graph::from_node_ids(&[text.reflection(), num.reflection(), sink.reflection()]);
    // The newest edge flows first: the number reaches `x`, then the text
    // cannot feed `y`.
    graph.connect(text, sink, None, Some(&NUM_SINK.inputs[1])).unwrap();
    graph.connect(num, sink, None, Some(&NUM_SINK.inputs[0])).unwrap();
    registry.get_node_mut(text).unwrap().run().unwrap();
    registry.get_node_mut(num).unwrap().run().unwrap();
    let trace = graph.generate_trace(&registry);
    let err = graph.flow_into(&mut registry, 2, &trace).unwrap_err();
    assert!(matches!(err.error, NodeExecutionError::InputInjection(InjectionError::OutputTypeMismatch(None))));
    let highlighted = err.graph_trace.unwrap();
    assert!(highlighted.connections[0].highlighted);
    assert!(!highlighted.connections[1].highlighted);
    let inputs = registry.get_inputs(sink).unwrap();
    assert_eq!(inputs[0], Some((Val::Int(100), ReevaluationRule::CacheLast)));
    assert_eq!(inputs[1], None);
    assert_eq!(registry.get_node(sink).unwrap().state, 0);
}

#[test]
fn a_node_listed_twice_is_found_where_it_was_listed_last() {
    let mut registry: Registry<Fixed> = Registry::new();
    let a = registry.register(fixed(&QUIET, true, ReevaluationRule::Move));
    let b = registry.register(fixed(&QUIET, false, ReevaluationRule::Move));
    let mut graph = Graph::from_node_ids(&[a.reflection(), b.reflection(), a.reflection()]);
    assert_eq!(graph.node_count(), 3);
    graph.connect(a, b, None, None).unwrap();
    assert_eq!(graph.parents(1), vec![(0, 2)]);
}
