//! Stages: the reflection of their inputs and outputs, how they are
//! evaluated, and the trait that a stage implements.
use vstd::prelude::*;
use crate::text::str_eq;

verus! {

/// How a stage parameter receives its value.
#[derive(Debug, Clone, Copy, PartialEq, Hash)]
pub enum RefType {
    Owned,
    Borrowed,
    BorrowedMut,
}

/// Names one input or output of a stage, with its printed type.
#[derive(Debug, Clone, Copy, PartialEq, Eq, Hash)]
pub struct TypeReflection {
    pub name: &'static str,
    pub ty: &'static str,
}

/// Type reflection for graph I/O.
#[derive(Debug, Clone, Copy, PartialEq, Eq, Hash)]
pub struct StageShape {
    pub stage_name: &'static str,
    pub inputs: &'static [TypeReflection],
    pub outputs: &'static [TypeReflection],
}

/// When a node is evaluated.
#[derive(Debug, Clone, Copy, PartialEq, Eq, Structural)]
pub enum EvalStrategy {
    /// Only evaluate when necessary to evaluate an "Urgent" stage.
    Lazy,
    /// Evaluate as soon as possible. There must be at least 1 "Urgent" stage
    /// for anything to execute at all.
    Urgent,
}

/// When a node is evaluated again, and how its outputs are handed on.
#[derive(Debug, Clone, Copy, PartialEq, Eq, Hash, Structural)]
pub enum ReevaluationRule {
    /// Always move outputs, reevaluate every time.
    Move,
    /// If all inputs are previous inputs, don't evaluate and keep the
    /// outputs of the last evaluation.
    CacheLast,
    /// If all inputs are equal to ANY previous input combination, don't
    /// evaluate and return the outputs cached for those exact inputs.
    CacheAll,
}

/// The name of the single unnamed output of a stage.
pub open spec fn unnamed_output_name() -> Seq<char> {
    seq!['_']
}

/// The first position in `fields` whose name is `name`, looking from `i` on.
pub open spec fn find_named_from(fields: Seq<TypeReflection>, name: Seq<char>, i: int) -> Option<int>
    decreases fields.len() - i,
{
    if i < 0 || i >= fields.len() {
        None
    } else if fields[i].name@ == name {
        Some(i)
    } else {
        find_named_from(fields, name, i + 1)
    }
}

/// The first position in `fields` whose name is `name`.
pub open spec fn find_named(fields: Seq<TypeReflection>, name: Seq<char>) -> Option<int> {
    find_named_from(fields, name, 0)
}

pub proof fn lemma_find_named_from(fields: Seq<TypeReflection>, name: Seq<char>, i: int)
    requires
        0 <= i <= fields.len(),
    ensures
        find_named_from(fields, name, i) matches Some(k) ==> i <= k < fields.len()
            && fields[k].name@ == name
            && forall|j: int| i <= j < k ==> fields[j].name@ != name,
        find_named_from(fields, name, i) is None ==> forall|j: int|
            i <= j < fields.len() ==> fields[j].name@ != name,
    decreases fields.len() - i,
{
    if i < fields.len() {
        lemma_find_named_from(fields, name, i + 1);
    }
}

/// Position of the first field of `fields` named `name`.
pub fn find_field(fields: &'static [TypeReflection], name: &str) -> (r: Option<usize>)
    ensures
        r matches Some(k) ==> Some(k as int) == find_named(fields@, name@) && k < fields@.len()
            && fields@[k as int].name@ == name@,
        r is None ==> find_named(fields@, name@) is None,
{
    proof {
        lemma_find_named_from(fields@, name@, 0);
    }
    let n = fields.len();
    let mut i: usize = 0;
    while i < n
        invariant
            n == fields@.len(),
            i <= n,
            find_named(fields@, name@) == find_named_from(fields@, name@, i as int),
        decreases n - i,
    {
        if str_eq(fields[i].name, name) {
            return Some(i);
        }
        i = i + 1;
    }
    None
}

/// The `name: type` pairs of a list of fields.
pub open spec fn fields_view(fs: Seq<TypeReflection>) -> Seq<(Seq<char>, Seq<char>)> {
    fs.map_values(|f: TypeReflection| (f.name@, f.ty@))
}

/// Two shapes describe the same stage: same name, and the same inputs and
/// outputs, in order.
pub open spec fn same_shape(a: StageShape, b: StageShape) -> bool {
    &&& a.stage_name@ == b.stage_name@
    &&& fields_view(a.inputs@) == fields_view(b.inputs@)
    &&& fields_view(a.outputs@) == fields_view(b.outputs@)
}

/// Whether two field lists have the same names and types, in order.
fn fields_eq(a: &'static [TypeReflection], b: &'static [TypeReflection]) -> (r: bool)
    ensures
        r == (fields_view(a@) == fields_view(b@)),
{
    let n = a.len();
    if n != b.len() {
        assert(fields_view(a@).len() != fields_view(b@).len());
        return false;
    }
    let mut i: usize = 0;
    while i < n
        invariant
            n == a@.len(),
            n == b@.len(),
            i <= n,
            forall|j: int| 0 <= j < i ==> fields_view(a@)[j] == fields_view(b@)[j],
        decreases n - i,
    {
        if !str_eq(a[i].name, b[i].name) || !str_eq(a[i].ty, b[i].ty) {
            assert(fields_view(a@)[i as int] != fields_view(b@)[i as int]);
            return false;
        }
        i = i + 1;
    }
    assert(fields_view(a@) =~= fields_view(b@));
    true
}

/// Whether two shapes describe the same stage.
pub fn shape_eq(a: &'static StageShape, b: &'static StageShape) -> (r: bool)
    ensures
        r == same_shape(*a, *b),
{
    str_eq(a.stage_name, b.stage_name) && fields_eq(a.inputs, b.inputs) && fields_eq(a.outputs, b.outputs)
}

impl StageShape {
    /// The input named `name`, as a connection names it.
    pub fn input_named(&'static self, name: &str) -> (r: Option<&'static TypeReflection>)
        ensures
            match find_named(self.inputs@, name@) {
                Some(k) => r == Some(&self.inputs@[k]),
                None => r is None,
            },
    {
        match find_field(self.inputs, name) {
            Some(k) => Some(&self.inputs[k]),
            None => None,
        }
    }

    /// The output named `name`, as a connection names it.
    pub fn output_named(&'static self, name: &str) -> (r: Option<&'static TypeReflection>)
        ensures
            match find_named(self.outputs@, name@) {
                Some(k) => r == Some(&self.outputs@[k]),
                None => r is None,
            },
    {
        match find_field(self.outputs, name) {
            Some(k) => Some(&self.outputs[k]),
            None => None,
        }
    }
}

impl TypeReflection {
    /// The reflection as text: `name: type`.
    pub fn display(&self) -> (r: String)
        ensures
            r@ == self.name@ + ": "@ + self.ty@,
    {
        let mut s = String::from_str(self.name);
        s.append(": ");
        s.append(self.ty);
        s
    }
}

/// Defines all the information about how a stage is handled. The function
/// of a stage is `call`: it receives the stage's state and one argument per
/// declared input, in order, and returns one optional value per declared
/// output, with the state that replaces the old one.
pub trait Stage: Sized {
    /// The values that flow between nodes.
    type Value: Clone + PartialEq;
    /// Internal state only, no special rules apply to this.
    type State;

    /// Used for reflection.
    fn shape(&self) -> &'static StageShape;

    /// When the stage's nodes are evaluated; lazy unless the stage says
    /// otherwise.
    fn eval_strategy(&self) -> (r: EvalStrategy)
        default_ensures
            r == EvalStrategy::Lazy,
    {
        EvalStrategy::Lazy
    }

    /// How the stage's nodes are evaluated again; `Move` unless the stage
    /// says otherwise.
    fn reeval_rule(&self) -> (r: ReevaluationRule)
        default_ensures
            r == ReevaluationRule::Move,
    {
        ReevaluationRule::Move
    }

    /// Runs the stage's function on its state and the argument values, one
    /// per declared input in order; returns one optional value per declared
    /// output, and the new state.
    fn call(&self, state: &Self::State, args: &Vec<Self::Value>) -> (Vec<Option<Self::Value>>, Self::State);
}

} // verus!
