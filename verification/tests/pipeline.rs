use std::sync::atomic::{AtomicUsize, Ordering};

use directed::error::{EdgeCreationError, InjectionError, NodeExecutionError, RegistryError};
use directed::graphs::Graph;
use directed::registry::{NodeId, Registry};
use directed::stage::{EvalStrategy, ReevaluationRule, Stage, StageShape, TypeReflection};

#[derive(Clone, Debug, PartialEq)]
enum Val {
    Int(i32),
    Text(String),
    List(Vec<i32>),
    Unit,
}

#[derive(Default, Debug, PartialEq, Clone)]
struct Scratch {
    a: u8,
    b: u8,
}

type StageFn = fn(&mut Scratch, &Vec<Val>) -> Vec<Option<Val>>;

#[derive(Clone)]
struct FnStage {
    shape: &'static StageShape,
    lazy: bool,
    rule: ReevaluationRule,
    func: StageFn,
}

impl Stage for FnStage {
    type Value = Val;
    type State = Scratch;

    fn shape(&self) -> &'static StageShape {
        self.shape
    }

    fn eval_strategy(&self) -> EvalStrategy {
        if self.lazy {
            EvalStrategy::Lazy
        } else {
            EvalStrategy::Urgent
        }
    }

    fn reeval_rule(&self) -> ReevaluationRule {
        self.rule
    }

    fn call(&self, state: &Scratch, args: &Vec<Val>) -> (Vec<Option<Val>>, Scratch) {
        let mut next = state.clone();
        let out = (self.func)(&mut next, args);
        (out, next)
    }
}

fn stage(shape: &'static StageShape, lazy: bool, rule: ReevaluationRule, func: StageFn) -> FnStage {
    FnStage { shape, lazy, rule, func }
}

fn graph_of(ids: &[NodeId]) -> Graph {
    let reflections: Vec<_> = ids.iter().map(|id| id.reflection()).collect();
    Graph::from_node_ids(&reflections)
}

/// Connects `from`'s output (`None`: the unnamed one) to `to`'s input
/// (`None`: no data), looking the fields up by name.
fn connect(
    graph: &mut Graph,
    from: NodeId,
    output: Option<&str>,
    to: NodeId,
    input: Option<&str>,
) -> Result<(), EdgeCreationError> {
    let out = output.map(|name| from.stage_shape().output_named(name).expect("Output not found in stage"));
    let inp = input.map(|name| to.stage_shape().input_named(name).expect("Input not found in stage"));
    graph.connect(from, to, out, inp)
}

fn unnamed(ty: &'static str) -> &'static [TypeReflection] {
    match ty {
        "String" => &[TypeReflection { name: "_", ty: "String" }],
        "i32" => &[TypeReflection { name: "_", ty: "i32" }],
        _ => &[TypeReflection { name: "_", ty: "()" }],
    }
}

fn as_int(v: &Val) -> i32 {
    match v {
        Val::Int(i) => *i,
        other => panic!("not an integer: {:?}", other),
    }
}

fn text(v: &Val) -> String {
    match v {
        Val::Text(t) => t.clone(),
        other => panic!("not a text: {:?}", other),
    }
}

static TINY1: StageShape = StageShape { stage_name: "TinyStage1", inputs: &[], outputs: &[TypeReflection { name: "_", ty: "String" }] };
static TINY2: StageShape = StageShape {
    stage_name: "TinyStage2",
    inputs: &[TypeReflection { name: "input", ty: "String" }, TypeReflection { name: "input2", ty: "String" }],
    outputs: &[TypeReflection { name: "_", ty: "String" }],
};
static TINY3: StageShape = StageShape {
    stage_name: "TinyStage3",
    inputs: &[TypeReflection { name: "input", ty: "String" }],
    outputs: &[TypeReflection { name: "_", ty: "()" }],
};

#[test]
fn basic_macro_test() {
    fn tiny1(_: &mut Scratch, _: &Vec<Val>) -> Vec<Option<Val>> {
        println!("Running stage 1");
        vec![Some(Val::Text(String::from("This is the output!")))]
    }
    fn tiny2(_: &mut Scratch, args: &Vec<Val>) -> Vec<Option<Val>> {
        println!("Running stage 2");
        let input = text(&args[0]);
        let input2 = text(&args[1]);
        vec![Some(Val::Text(input.to_uppercase() + " [" + &input2.chars().count().to_string() + " chars]"))]
    }
    fn tiny3(_: &mut Scratch, args: &Vec<Val>) -> Vec<Option<Val>> {
        println!("Running stage 3");
        assert_eq!("THIS IS THE OUTPUT! [19 chars]", text(&args[0]));
        vec![Some(Val::Unit)]
    }
    let mut registry = Registry::new();
    let node_1 = registry.register(stage(&TINY1, true, ReevaluationRule::CacheLast, tiny1));
    let node_2 = registry.register(stage(&TINY2, true, ReevaluationRule::CacheLast, tiny2));
    let node_3 = registry.register(stage(&TINY3, false, ReevaluationRule::CacheLast, tiny3));
    let mut graph = graph_of(&[node_1, node_2, node_3]);
    connect(&mut graph, node_1, None, node_2, Some("input")).unwrap();
    connect(&mut graph, node_1, None, node_2, Some("input2")).unwrap();
    connect(&mut graph, node_2, None, node_3, Some("input")).unwrap();
    graph.execute(&mut registry).unwrap();
}

static MULTI_OUT: StageShape = StageShape {
    stage_name: "MultiOutputStage",
    inputs: &[],
    outputs: &[TypeReflection { name: "number", ty: "i32" }, TypeReflection { name: "text", ty: "String" }],
};
static CONSUMER_NUMBER: StageShape = StageShape {
    stage_name: "ConsumerStage1",
    inputs: &[TypeReflection { name: "number", ty: "i32" }],
    outputs: &[TypeReflection { name: "_", ty: "()" }],
};
static CONSUMER_TEXT: StageShape = StageShape {
    stage_name: "ConsumerStage2",
    inputs: &[TypeReflection { name: "text", ty: "String" }],
    outputs: &[TypeReflection { name: "_", ty: "()" }],
};

#[test]
fn multiple_output_stage_test() {
    static CONSUMED: AtomicUsize = AtomicUsize::new(0);
    fn multi(_: &mut Scratch, _: &Vec<Val>) -> Vec<Option<Val>> {
        let value1 = 42;
        let value2 = String::from("Hello");
        vec![Some(Val::Int(value1)), Some(Val::Text(value2))]
    }
    fn consume_number(_: &mut Scratch, args: &Vec<Val>) -> Vec<Option<Val>> {
        assert_eq!(as_int(&args[0]), 42);
        CONSUMED.fetch_add(1, Ordering::SeqCst);
        vec![Some(Val::Unit)]
    }
    fn consume_text(_: &mut Scratch, args: &Vec<Val>) -> Vec<Option<Val>> {
        assert_eq!(text(&args[0]), "Hello");
        CONSUMED.fetch_add(1, Ordering::SeqCst);
        vec![Some(Val::Unit)]
    }
    let mut registry = Registry::new();
    let producer = registry.register(stage(&MULTI_OUT, false, ReevaluationRule::Move, multi));
    let consumer1 = registry.register(stage(&CONSUMER_NUMBER, false, ReevaluationRule::Move, consume_number));
    let consumer2 = registry.register(stage(&CONSUMER_TEXT, false, ReevaluationRule::Move, consume_text));
    let mut graph = graph_of(&[producer, consumer1, consumer2]);
    connect(&mut graph, producer, Some("number"), consumer1, Some("number")).unwrap();
    connect(&mut graph, producer, Some("text"), consumer2, Some("text")).unwrap();
    graph.execute(&mut registry).unwrap();
    assert_eq!(CONSUMED.load(Ordering::SeqCst), 2);
}

static LAZY_SHAPE: StageShape = StageShape { stage_name: "LazyStage", inputs: &[], outputs: &[TypeReflection { name: "_", ty: "i32" }] };
static URGENT_SHAPE: StageShape = StageShape {
    stage_name: "UrgentStage",
    inputs: &[TypeReflection { name: "input", ty: "i32" }],
    outputs: &[TypeReflection { name: "_", ty: "()" }],
};

#[test]
fn lazy_and_urgent_eval_test() {
    static COUNTER: AtomicUsize = AtomicUsize::new(0);
    fn lazy(_: &mut Scratch, _: &Vec<Val>) -> Vec<Option<Val>> {
        COUNTER.fetch_add(1, Ordering::SeqCst);
        vec![Some(Val::Int(42))]
    }
    fn urgent(_: &mut Scratch, args: &Vec<Val>) -> Vec<Option<Val>> {
        assert_eq!(as_int(&args[0]), 42);
        assert_eq!(COUNTER.load(Ordering::SeqCst), 1);
        vec![Some(Val::Unit)]
    }
    let mut registry = Registry::new();
    let lazy_node = registry.register(stage(&LAZY_SHAPE, true, ReevaluationRule::CacheLast, lazy));
    let urgent_node = registry.register(stage(&URGENT_SHAPE, false, ReevaluationRule::CacheLast, urgent));
    let mut graph = graph_of(&[lazy_node, urgent_node]);
    connect(&mut graph, lazy_node, None, urgent_node, Some("input")).unwrap();
    COUNTER.store(0, Ordering::SeqCst);
    graph.execute(&mut registry).unwrap();
    assert_eq!(COUNTER.load(Ordering::SeqCst), 1);
}

static SOURCE_SHAPE: StageShape = StageShape { stage_name: "SourceStage", inputs: &[], outputs: &[TypeReflection { name: "_", ty: "i32" }] };
static TRANSPARENT_SHAPE: StageShape = StageShape {
    stage_name: "TransparentStage",
    inputs: &[TypeReflection { name: "input", ty: "i32" }],
    outputs: &[TypeReflection { name: "_", ty: "i32" }],
};
static OPAQUE_SHAPE: StageShape = StageShape {
    stage_name: "OpaqueStage",
    inputs: &[TypeReflection { name: "input", ty: "& i32" }],
    outputs: &[TypeReflection { name: "_", ty: "i32" }],
};
static SINK_SHAPE: StageShape = StageShape {
    stage_name: "SinkStage",
    inputs: &[TypeReflection { name: "t_input", ty: "& i32" }, TypeReflection { name: "o_input", ty: "& i32" }],
    outputs: &[TypeReflection { name: "_", ty: "()" }],
};

#[test]
fn transparent_opaque_reevaluation_test() {
    static TRANSPARENT_COUNTER: AtomicUsize = AtomicUsize::new(0);
    static OPAQUE_COUNTER: AtomicUsize = AtomicUsize::new(0);
    fn source(_: &mut Scratch, _: &Vec<Val>) -> Vec<Option<Val>> {
        println!("SourceStage");
        vec![Some(Val::Int(42))]
    }
    fn transparent(_: &mut Scratch, args: &Vec<Val>) -> Vec<Option<Val>> {
        println!("TransparentStage");
        TRANSPARENT_COUNTER.fetch_add(1, Ordering::SeqCst);
        vec![Some(Val::Int(as_int(&args[0]) * 2))]
    }
    fn opaque(_: &mut Scratch, args: &Vec<Val>) -> Vec<Option<Val>> {
        println!("OpaqueStage");
        OPAQUE_COUNTER.fetch_add(1, Ordering::SeqCst);
        vec![Some(Val::Int(as_int(&args[0]) * 3))]
    }
    fn sink(_: &mut Scratch, args: &Vec<Val>) -> Vec<Option<Val>> {
        println!("SinkStage");
        assert_eq!(as_int(&args[0]), 84);
        assert_eq!(as_int(&args[1]), 126);
        vec![Some(Val::Unit)]
    }
    let mut registry = Registry::new();
    let source_node = registry.register(stage(&SOURCE_SHAPE, true, ReevaluationRule::CacheLast, source));
    let transparent_node = registry.register(stage(&TRANSPARENT_SHAPE, true, ReevaluationRule::CacheLast, transparent));
    let opaque_node = registry.register(stage(&OPAQUE_SHAPE, true, ReevaluationRule::Move, opaque));
    let sink_node = registry.register(stage(&SINK_SHAPE, false, ReevaluationRule::Move, sink));
    let mut graph = graph_of(&[source_node, transparent_node, opaque_node, sink_node]);
    connect(&mut graph, source_node, None, transparent_node, Some("input")).unwrap();
    connect(&mut graph, source_node, None, opaque_node, Some("input")).unwrap();
    connect(&mut graph, transparent_node, None, sink_node, Some("t_input")).unwrap();
    connect(&mut graph, opaque_node, None, sink_node, Some("o_input")).unwrap();

    TRANSPARENT_COUNTER.store(0, Ordering::SeqCst);
    OPAQUE_COUNTER.store(0, Ordering::SeqCst);

    graph.execute(&mut registry).unwrap();
    assert_eq!(TRANSPARENT_COUNTER.load(Ordering::SeqCst), 1);
    assert_eq!(OPAQUE_COUNTER.load(Ordering::SeqCst), 1);

    graph.execute(&mut registry).unwrap();
    assert_eq!(TRANSPARENT_COUNTER.load(Ordering::SeqCst), 1);
    assert_eq!(OPAQUE_COUNTER.load(Ordering::SeqCst), 2);
}

static STAGE_A: StageShape = StageShape {
    stage_name: "StageA",
    inputs: &[TypeReflection { name: "input", ty: "i32" }],
    outputs: &[TypeReflection { name: "_", ty: "i32" }],
};
static STAGE_B: StageShape = StageShape {
    stage_name: "StageB",
    inputs: &[TypeReflection { name: "input", ty: "i32" }],
    outputs: &[TypeReflection { name: "_", ty: "i32" }],
};

#[test]
fn cycle_detection_test() {
    fn plus_one(_: &mut Scratch, args: &Vec<Val>) -> Vec<Option<Val>> {
        vec![Some(Val::Int(as_int(&args[0]) + 1))]
    }
    fn times_two(_: &mut Scratch, args: &Vec<Val>) -> Vec<Option<Val>> {
        vec![Some(Val::Int(as_int(&args[0]) * 2))]
    }
    let mut registry = Registry::new();
    let node_a = registry.register(stage(&STAGE_A, false, ReevaluationRule::Move, plus_one));
    let node_b = registry.register(stage(&STAGE_B, false, ReevaluationRule::Move, times_two));
    let mut graph = graph_of(&[node_a, node_b]);
    let result = connect(&mut graph, node_a, None, node_b, Some("input"))
        .and_then(|_| connect(&mut graph, node_b, None, node_a, Some("input")));
    assert!(result.is_err());
    assert!(matches!(result, Err(EdgeCreationError::CycleError(_))));
}

static SIMPLE: StageShape = StageShape { stage_name: "SimpleStage", inputs: &[], outputs: &[TypeReflection { name: "_", ty: "i32" }] };
static OTHER: StageShape = StageShape { stage_name: "OtherStage", inputs: &[], outputs: &[TypeReflection { name: "_", ty: "String" }] };

fn forty_two(_: &mut Scratch, _: &Vec<Val>) -> Vec<Option<Val>> {
    vec![Some(Val::Int(42))]
}

#[test]
fn registry_operations_test() {
    let mut registry = Registry::new();
    let node_id = registry.register(stage(&SIMPLE, false, ReevaluationRule::Move, forty_two));
    registry.validate_node_type(node_id.reflection(), &SIMPLE).unwrap();
    assert!(registry.validate_node_type(node_id.reflection(), &OTHER).is_err());
    assert!(registry.get_node(node_id).is_some());
    assert!(registry.get_node_mut(node_id).is_some());
    let node = registry.unregister(node_id.reflection(), &SIMPLE).unwrap().unwrap();
    assert!(node.stage.eval_strategy() == EvalStrategy::Urgent);
    assert!(registry.get_node(node_id).is_none());
}

static STRING_STAGE: StageShape = StageShape { stage_name: "StringStage", inputs: &[], outputs: &[TypeReflection { name: "_", ty: "String" }] };
static INTEGER_CONSUMER: StageShape = StageShape {
    stage_name: "IntegerConsumer",
    inputs: &[TypeReflection { name: "input", ty: "i32" }],
    outputs: &[TypeReflection { name: "_", ty: "()" }],
};

#[test]
fn type_mismatch_test() {
    fn hello(_: &mut Scratch, _: &Vec<Val>) -> Vec<Option<Val>> {
        vec![Some(Val::Text("Hello".to_string()))]
    }
    fn never(_: &mut Scratch, _: &Vec<Val>) -> Vec<Option<Val>> {
        panic!("Should not execute");
    }
    let mut registry = Registry::new();
    let producer = registry.register(stage(&STRING_STAGE, false, ReevaluationRule::Move, hello));
    let consumer = registry.register(stage(&INTEGER_CONSUMER, false, ReevaluationRule::Move, never));
    let mut graph = graph_of(&[producer, consumer]);
    connect(&mut graph, producer, None, consumer, Some("input")).unwrap();
    let result = graph.execute(&mut registry);
    assert!(result.is_err());
    let err = result.unwrap_err();
    assert!(matches!(err.error, NodeExecutionError::InputInjection(InjectionError::OutputTypeMismatch(None))));
    assert!(err.graph_trace.is_some());
}

static TWO_INPUT_CONSUMER: StageShape = StageShape {
    stage_name: "ConsumerStage",
    inputs: &[TypeReflection { name: "input1", ty: "i32" }, TypeReflection { name: "input2", ty: "String" }],
    outputs: &[TypeReflection { name: "_", ty: "()" }],
};
static PRODUCER: StageShape = StageShape { stage_name: "ProducerStage", inputs: &[], outputs: &[TypeReflection { name: "_", ty: "i32" }] };

#[test]
fn missing_input_test() {
    fn never(_: &mut Scratch, _: &Vec<Val>) -> Vec<Option<Val>> {
        panic!("Should not execute");
    }
    let mut registry = Registry::new();
    let producer = registry.register(stage(&PRODUCER, false, ReevaluationRule::Move, forty_two));
    let consumer = registry.register(stage(&TWO_INPUT_CONSUMER, false, ReevaluationRule::Move, never));
    let mut graph = graph_of(&[producer, consumer]);
    connect(&mut graph, producer, None, consumer, Some("input1")).unwrap();
    let result = graph.execute(&mut registry);
    assert!(result.is_err());
    match result.unwrap_err().error {
        NodeExecutionError::InputInjection(InjectionError::InputNotFound(Some(field))) => {
            assert_eq!(field.name, "input2");
        }
        other => panic!("unexpected error {:?}", other),
    }
}

static DIAMOND_SOURCE: StageShape = StageShape { stage_name: "Source", inputs: &[], outputs: &[TypeReflection { name: "_", ty: "i32" }] };
static PATH_A: StageShape = StageShape {
    stage_name: "PathA",
    inputs: &[TypeReflection { name: "input", ty: "i32" }],
    outputs: &[TypeReflection { name: "_", ty: "i32" }],
};
static PATH_B: StageShape = StageShape {
    stage_name: "PathB",
    inputs: &[TypeReflection { name: "input", ty: "i32" }],
    outputs: &[TypeReflection { name: "_", ty: "i32" }],
};
static DIAMOND_SINK: StageShape = StageShape {
    stage_name: "Sink",
    inputs: &[TypeReflection { name: "a", ty: "i32" }, TypeReflection { name: "b", ty: "i32" }],
    outputs: &[TypeReflection { name: "_", ty: "()" }],
};

#[test]
fn diamond_graph_test() {
    static SUNK: AtomicUsize = AtomicUsize::new(0);
    fn source(_: &mut Scratch, _: &Vec<Val>) -> Vec<Option<Val>> {
        vec![Some(Val::Int(10))]
    }
    fn path_a(_: &mut Scratch, args: &Vec<Val>) -> Vec<Option<Val>> {
        vec![Some(Val::Int(as_int(&args[0]) * 2))]
    }
    fn path_b(_: &mut Scratch, args: &Vec<Val>) -> Vec<Option<Val>> {
        vec![Some(Val::Int(as_int(&args[0]) + 5))]
    }
    fn sink(_: &mut Scratch, args: &Vec<Val>) -> Vec<Option<Val>> {
        assert_eq!(as_int(&args[0]), 20);
        assert_eq!(as_int(&args[1]), 15);
        SUNK.fetch_add(1, Ordering::SeqCst);
        vec![Some(Val::Unit)]
    }
    let mut registry = Registry::new();
    let source_node = registry.register(stage(&DIAMOND_SOURCE, false, ReevaluationRule::Move, source));
    let path_a_node = registry.register(stage(&PATH_A, false, ReevaluationRule::Move, path_a));
    let path_b_node = registry.register(stage(&PATH_B, false, ReevaluationRule::Move, path_b));
    let sink_node = registry.register(stage(&DIAMOND_SINK, false, ReevaluationRule::Move, sink));
    let mut graph = graph_of(&[source_node, path_a_node, path_b_node, sink_node]);
    connect(&mut graph, source_node, None, path_a_node, Some("input")).unwrap();
    connect(&mut graph, source_node, None, path_b_node, Some("input")).unwrap();
    connect(&mut graph, path_a_node, None, sink_node, Some("a")).unwrap();
    connect(&mut graph, path_b_node, None, sink_node, Some("b")).unwrap();
    graph.execute(&mut registry).unwrap();
    assert_eq!(SUNK.load(Ordering::SeqCst), 1);
}

static STATE_STAGE: StageShape = StageShape { stage_name: "StateStage", inputs: &[], outputs: &[TypeReflection { name: "_", ty: "()" }] };

#[test]
fn node_with_state_test() {
    fn state_stage(state: &mut Scratch, _: &Vec<Val>) -> Vec<Option<Val>> {
        assert_eq!(state.b, state.a * 5);
        state.a += 1;
        state.b += 5;
        println!("State is {}", state.b);
        vec![Some(Val::Unit)]
    }
    let mut registry = Registry::new();
    let node = registry.register_with_state(stage(&STATE_STAGE, false, ReevaluationRule::Move, state_stage), Scratch { a: 1, b: 5 });
    let graph = graph_of(&[node]);
    graph.execute(&mut registry).unwrap();
    graph.execute(&mut registry).unwrap();
    graph.execute(&mut registry).unwrap();
    graph.execute(&mut registry).unwrap();
    assert_eq!(*registry.state(node).unwrap(), Scratch { a: 5, b: 25 });
}

static PRODUCE_OUTPUT: StageShape = StageShape {
    stage_name: "ProduceOutput1",
    inputs: &[],
    outputs: &[
        TypeReflection { name: "number", ty: "i32" },
        TypeReflection { name: "text", ty: "String" },
        TypeReflection { name: "vector", ty: "Vec < i32 >" },
    ],
};
static CONSUME_OUTPUTS: StageShape = StageShape {
    stage_name: "ConsumeOutputs",
    inputs: &[
        TypeReflection { name: "num", ty: "i32" },
        TypeReflection { name: "txt", ty: "String" },
        TypeReflection { name: "vect", ty: "Vec < i32 >" },
    ],
    outputs: &[TypeReflection { name: "_", ty: "()" }],
};

#[test]
fn output_macro_test() {
    static CONSUMED: AtomicUsize = AtomicUsize::new(0);
    fn produce(_: &mut Scratch, _: &Vec<Val>) -> Vec<Option<Val>> {
        println!("Running ProduceOutput1");
        let number = 42;
        let text = "hello".to_string();
        let vector = vec![1, 2, 3];
        vec![Some(Val::Int(number)), Some(Val::Text(text)), Some(Val::List(vector))]
    }
    fn consume(_: &mut Scratch, args: &Vec<Val>) -> Vec<Option<Val>> {
        assert_eq!(as_int(&args[0]), 42);
        assert_eq!(text(&args[1]), "hello");
        assert_eq!(args[2], Val::List(vec![1, 2, 3]));
        CONSUMED.fetch_add(1, Ordering::SeqCst);
        vec![Some(Val::Unit)]
    }
    let mut registry = Registry::new();
    let producer = registry.register(stage(&PRODUCE_OUTPUT, false, ReevaluationRule::Move, produce));
    let consumer = registry.register(stage(&CONSUME_OUTPUTS, false, ReevaluationRule::Move, consume));
    let mut graph = graph_of(&[producer, consumer]);
    connect(&mut graph, producer, Some("number"), consumer, Some("num")).unwrap();
    connect(&mut graph, producer, Some("text"), consumer, Some("txt")).unwrap();
    connect(&mut graph, producer, Some("vector"), consumer, Some("vect")).unwrap();
    graph.execute(&mut registry).unwrap();
    assert_eq!(CONSUMED.load(Ordering::SeqCst), 1);
}

static REG_A: StageShape = StageShape { stage_name: "StageA", inputs: &[], outputs: &[TypeReflection { name: "_", ty: "i32" }] };
static REG_B: StageShape = StageShape { stage_name: "StageB", inputs: &[], outputs: &[TypeReflection { name: "_", ty: "String" }] };

#[test]
fn registry_type_validation_test() {
    let mut registry = Registry::new();
    let node_a = registry.register(stage(&REG_A, false, ReevaluationRule::Move, forty_two));
    assert!(registry.validate_node_type(node_a.reflection(), &REG_A).is_ok());
    assert!(registry.validate_node_type(node_a.reflection(), &REG_B).is_err());
    assert!(registry.unregister(node_a.reflection(), &REG_B).is_err());
    assert!(registry.unregister(node_a.reflection(), &REG_A).is_ok());
}

static BLANK1: StageShape = StageShape { stage_name: "TinyStage1", inputs: &[], outputs: &[TypeReflection { name: "_", ty: "()" }] };
static BLANK2: StageShape = StageShape { stage_name: "TinyStage2", inputs: &[], outputs: &[TypeReflection { name: "_", ty: "()" }] };
static BLANK3: StageShape = StageShape { stage_name: "TinyStage3", inputs: &[], outputs: &[TypeReflection { name: "_", ty: "()" }] };

#[test]
fn blank_connections_test() {
    static COUNTER: AtomicUsize = AtomicUsize::new(0);
    fn tiny1(_: &mut Scratch, _: &Vec<Val>) -> Vec<Option<Val>> {
        println!("Running stage 1");
        COUNTER.fetch_add(1, Ordering::SeqCst);
        vec![Some(Val::Unit)]
    }
    fn tiny2(_: &mut Scratch, _: &Vec<Val>) -> Vec<Option<Val>> {
        println!("Running stage 2");
        assert_eq!(COUNTER.load(Ordering::SeqCst), 2);
        COUNTER.fetch_add(1, Ordering::SeqCst);
        vec![Some(Val::Unit)]
    }
    fn tiny3(_: &mut Scratch, _: &Vec<Val>) -> Vec<Option<Val>> {
        println!("Running stage 3");
        assert_eq!(COUNTER.load(Ordering::SeqCst), 3);
        COUNTER.fetch_add(1, Ordering::SeqCst);
        vec![Some(Val::Unit)]
    }
    let mut registry = Registry::new();
    let node_1 = registry.register(stage(&BLANK1, true, ReevaluationRule::Move, tiny1));
    let node_2 = registry.register(stage(&BLANK2, true, ReevaluationRule::Move, tiny2));
    let node_3 = registry.register(stage(&BLANK3, false, ReevaluationRule::Move, tiny3));
    let mut graph = graph_of(&[node_1, node_2, node_3]);
    connect(&mut graph, node_1, None, node_2, None).unwrap();
    connect(&mut graph, node_2, None, node_3, None).unwrap();
    connect(&mut graph, node_1, None, node_3, None).unwrap();
    graph.execute(&mut registry).unwrap();
    assert_eq!(COUNTER.load(Ordering::SeqCst), 4);
}

#[test]
fn validate_reports_missing_and_mismatched_nodes() {
    let mut registry = Registry::new();
    let node = registry.register(stage(&SIMPLE, false, ReevaluationRule::Move, forty_two));
    match registry.validate_node_type(node.reflection(), &OTHER) {
        Err(RegistryError::NodeTypeMismatch(e)) => {
            assert_eq!(e.got, "OtherStage");
            assert_eq!(e.expected, "SimpleStage");
        }
        other => panic!("unexpected {:?}", other.is_ok()),
    }
    registry.unregister_and_drop(node.reflection()).unwrap();
    assert!(registry.get_node_any(node.reflection()).is_none());
    match registry.validate_node_type(node.reflection(), &SIMPLE) {
        Err(RegistryError::NodesNotFoundInRegistry(e)) => assert_eq!(e.0.len(), 1),
        other => panic!("unexpected {:?}", other.is_ok()),
    }
    let past_end = directed::registry::NodeReflection { id: 7, shape: &SIMPLE };
    assert!(registry.unregister_and_drop(past_end).is_err());
}
