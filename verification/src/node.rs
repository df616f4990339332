//! Nodes contain all logic and state, but no information on order of execution.
use vstd::prelude::*;
use vstd::std_specs::cmp::PartialEqSpec;
use crate::stage::{Stage, StageShape, TypeReflection, EvalStrategy, ReevaluationRule, find_named, find_field, unnamed_output_name};
use crate::error::InjectionError;
use crate::text::{type_accepts, base_type};

verus! {

/// This represents a cached input/output pair.
pub struct Cached<S: Stage> {
    pub inputs: Vec<Option<(S::Value, ReevaluationRule)>>,
    pub outputs: Vec<Option<S::Value>>,
}

/// Every node wraps a Stage, with its state, its current inputs and outputs,
/// and what was read of the stage when the node was made: its shape, its
/// evaluation strategy and its reevaluation rule.
pub struct Node<S: Stage> {
    pub stage: S,
    pub state: S::State,
    /// One slot per declared input, with the rule of the node it came from.
    pub inputs: Vec<Option<(S::Value, ReevaluationRule)>>,
    /// One slot per output that the last evaluation produced.
    pub outputs: Vec<Option<S::Value>>,
    pub cache: Vec<Cached<S>>,
    pub input_changed: bool,
    pub shape: &'static StageShape,
    pub eval_strategy: EvalStrategy,
    pub reeval_rule: ReevaluationRule,
}

/// The first input slot that holds no value.
pub open spec fn first_missing<V>(inputs: Seq<Option<(V, ReevaluationRule)>>, i: int) -> Option<int>
    decreases inputs.len() - i,
{
    if i < 0 || i >= inputs.len() {
        None
    } else if inputs[i] is None {
        Some(i)
    } else {
        first_missing(inputs, i + 1)
    }
}

pub proof fn lemma_first_missing<V>(inputs: Seq<Option<(V, ReevaluationRule)>>, i: int)
    requires
        0 <= i <= inputs.len(),
    ensures
        first_missing(inputs, i) matches Some(k) ==> i <= k < inputs.len() && inputs[k] is None
            && forall|j: int| i <= j < k ==> inputs[j] is Some,
        first_missing(inputs, i) is None ==> forall|j: int| i <= j < inputs.len() ==> inputs[j] is Some,
    decreases inputs.len() - i,
{
    if i < inputs.len() {
        lemma_first_missing(inputs, i + 1);
    }
}

/// Two input lists agree: same length, and in each slot both are empty or
/// both hold equal values with the same rule.
pub open spec fn inputs_eq_spec<V: PartialEq>(a: Seq<Option<(V, ReevaluationRule)>>, b: Seq<Option<(V, ReevaluationRule)>>) -> bool {
    &&& a.len() == b.len()
    &&& forall|i: int| 0 <= i < a.len() ==> match (#[trigger] a[i], b[i]) {
        (None, None) => true,
        (Some((x, rx)), Some((y, ry))) => x.eq_spec(&y) && rx == ry,
        _ => false,
    }
}

/// The output position that a connection reads: the unnamed output for
/// `None`, else the named output with the connection's name.
pub open spec fn output_position(shape: StageShape, output: Option<&'static TypeReflection>) -> Option<int> {
    match output {
        None => find_named(shape.outputs@, unnamed_output_name()),
        Some(f) => if f.name@ == unnamed_output_name() {
            None
        } else {
            find_named(shape.outputs@, f.name@)
        },
    }
}

/// The input slots after the first `k` have been emptied.
pub open spec fn taken_upto<V>(inputs: Seq<Option<(V, ReevaluationRule)>>, k: int) -> Seq<Option<(V, ReevaluationRule)>> {
    Seq::new(inputs.len(), |i: int| if i < k { None } else { inputs[i] })
}

/// Whether handing a copy of `v` to input `i` of `child` leaves the child
/// marked changed: it was marked already, or the slot was empty or held a
/// different value.
pub open spec fn copy_marks_changed<S: Stage>(child: Node<S>, i: int, v: S::Value) -> bool {
    child.input_changed || match child.inputs@[i] {
        None => true,
        Some((e, _)) => !v.eq_spec(&e),
    }
}

/// The first entry of `cache`, from position `j` on, recorded for inputs
/// that agree with `inputs`.
pub open spec fn cache_hit<S: Stage>(cache: Seq<Cached<S>>, inputs: Seq<Option<(S::Value, ReevaluationRule)>>, j: int) -> Option<int>
    decreases cache.len() - j,
{
    if j < 0 || j >= cache.len() {
        None
    } else if inputs_eq_spec(cache[j].inputs@, inputs) {
        Some(j)
    } else {
        cache_hit(cache, inputs, j + 1)
    }
}

pub proof fn lemma_cache_hit<S: Stage>(cache: Seq<Cached<S>>, inputs: Seq<Option<(S::Value, ReevaluationRule)>>, j: int)
    requires
        0 <= j <= cache.len(),
    ensures
        cache_hit(cache, inputs, j) matches Some(k) ==> j <= k < cache.len()
            && inputs_eq_spec(cache[k].inputs@, inputs)
            && forall|i: int| j <= i < k ==> !inputs_eq_spec(#[trigger] cache[i].inputs@, inputs),
        cache_hit(cache, inputs, j) is None ==> forall|k: int|
            j <= k < cache.len() ==> !inputs_eq_spec(#[trigger] cache[k].inputs@, inputs),
    decreases cache.len() - j,
{
    if j < cache.len() {
        lemma_cache_hit(cache, inputs, j + 1);
    }
}

/// `b` holds, slot by slot, a clone of what `a` holds.
pub open spec fn clones_of<V: Clone>(a: Seq<Option<V>>, b: Seq<Option<V>>) -> bool {
    &&& a.len() == b.len()
    &&& forall|i: int| 0 <= i < a.len() ==> cloned::<Option<V>>(#[trigger] a[i], b[i])
}

/// The values that the input slots hold, in order.
pub open spec fn input_values<V>(inputs: Seq<Option<(V, ReevaluationRule)>>) -> Seq<V> {
    inputs.map_values(|slot: Option<(V, ReevaluationRule)>| slot.unwrap().0)
}

/// `b` holds, slot by slot, what `a` holds: the same rule with a clone of
/// the value.
pub open spec fn inputs_cloned<V: Clone>(a: Seq<Option<(V, ReevaluationRule)>>, b: Seq<Option<(V, ReevaluationRule)>>) -> bool {
    &&& a.len() == b.len()
    &&& forall|i: int| 0 <= i < a.len() ==> match (#[trigger] a[i], b[i]) {
        (None, None) => true,
        (Some((x, rx)), Some((y, ry))) => cloned::<V>(x, y) && rx == ry,
        _ => false,
    }
}

/// `s` fitted to `m` slots: cut after `m`, or filled up with empty slots.
pub open spec fn fitted<V>(s: Seq<Option<V>>, m: int) -> Seq<Option<V>> {
    Seq::new(m as nat, |i: int| if i < s.len() { s[i] } else { None })
}

/// Fits the outputs of a stage to one slot per declared output.
fn fit_outputs<V>(v: Vec<Option<V>>, m: usize) -> (r: Vec<Option<V>>)
    ensures
        r@ == fitted(v@, m as int),
{
    let ghost orig = v@;
    let mut v = v;
    while v.len() > m
        invariant
            v@ == orig.take(v@.len() as int),
            v@.len() <= orig.len(),
            v@.len() >= m || v@.len() == orig.len(),
        decreases v@.len(),
    {
        v.pop();
        assert(v@ =~= orig.take(v@.len() as int));
    }
    while v.len() < m
        invariant
            v@.len() <= m,
            v@.len() < m ==> v@.len() >= orig.len(),
            forall|i: int| 0 <= i < v@.len() ==> (#[trigger] v@[i]) == (if i < orig.len() { orig[i] } else { None }),
        decreases m - v@.len(),
    {
        v.push(None);
    }
    assert(v@ =~= fitted(orig, m as int));
    v
}

/// A copy of input slots: each value cloned, each rule kept.
fn clone_inputs<V: Clone>(inputs: &Vec<Option<(V, ReevaluationRule)>>) -> (r: Vec<Option<(V, ReevaluationRule)>>)
    ensures
        inputs_cloned(inputs@, r@),
{
    let mut out: Vec<Option<(V, ReevaluationRule)>> = Vec::new();
    let n = inputs.len();
    let mut i: usize = 0;
    while i < n
        invariant
            n == inputs@.len(),
            i <= n,
            out@.len() == i,
            forall|k: int| 0 <= k < i ==> match (#[trigger] inputs@[k], out@[k]) {
                (None, None) => true,
                (Some((x, rx)), Some((y, ry))) => cloned::<V>(x, y) && rx == ry,
                _ => false,
            },
        decreases n - i,
    {
        match &inputs[i] {
            Some((v, rule)) => {
                let c = v.clone();
                proof {
                    assert(cloned::<V>(*v, c));
                }
                out.push(Some((c, *rule)));
            },
            None => {
                out.push(None);
            },
        }
        i = i + 1;
    }
    out
}

/// Compares two input lists slot by slot.
pub fn inputs_equal<V: PartialEq>(a: &Vec<Option<(V, ReevaluationRule)>>, b: &Vec<Option<(V, ReevaluationRule)>>) -> (r: bool)
    ensures
        V::obeys_eq_spec() ==> r == inputs_eq_spec(a@, b@),
        a@.len() != b@.len() ==> !r,
{
    if a.len() != b.len() {
        return false;
    }
    let n = a.len();
    let mut i: usize = 0;
    while i < n
        invariant
            n == a@.len(),
            n == b@.len(),
            i <= n,
            V::obeys_eq_spec() ==> forall|j: int| 0 <= j < i ==> match (#[trigger] a@[j], b@[j]) {
                (None, None) => true,
                (Some((x, rx)), Some((y, ry))) => x.eq_spec(&y) && rx == ry,
                _ => false,
            },
        decreases n - i,
    {
        let same = match (&a[i], &b[i]) {
            (None, None) => true,
            (Some((x, rx)), Some((y, ry))) => *x == *y && *rx == *ry,
            _ => false,
        };
        if !same {
            return false;
        }
        i = i + 1;
    }
    true
}

/// The position that `field` selects among `fields`: the unnamed field
/// `_` for `None`, else the field with `field`'s name (never `_`).
pub open spec fn field_position(fields: Seq<TypeReflection>, field: Option<&'static TypeReflection>) -> Option<int> {
    match field {
        None => find_named(fields, unnamed_output_name()),
        Some(f) => if f.name@ == unnamed_output_name() {
            None
        } else {
            find_named(fields, f.name@)
        },
    }
}

/// Position among `fields` that `field` selects.
fn select_field(fields: &'static [TypeReflection], field: Option<&'static TypeReflection>) -> (r: Option<usize>)
    ensures
        r matches Some(k) ==> field_position(fields@, field) == Some(k as int) && k < fields@.len(),
        r is None ==> field_position(fields@, field) is None,
{
    let unnamed = "_";
    proof {
        reveal_strlit("_");
        assert(unnamed@ =~= unnamed_output_name());
    }
    match field {
        None => find_field(fields, unnamed),
        Some(f) => {
            if crate::text::str_eq(f.name, unnamed) {
                None
            } else {
                find_field(fields, f.name)
            }
        },
    }
}

/// Access by field label to the slots of a node's inputs or outputs, as the
/// node's declared fields name them.
pub trait DynFields: Sized {
    type Item;

    /// The value in the slot that `field` selects, if any.
    fn field(&self, fields: &'static [TypeReflection], field: Option<&'static TypeReflection>) -> Option<&Self::Item>;

    /// The value in the slot that `field` selects, if any, for changing it
    /// in place.
    fn field_mut(&mut self, fields: &'static [TypeReflection], field: Option<&'static TypeReflection>) -> Option<&mut Self::Item>;

    /// Takes the value out of the slot that `field` selects, if any.
    fn take_field(&mut self, fields: &'static [TypeReflection], field: Option<&'static TypeReflection>) -> Option<Self::Item>;

    /// Puts `other` in place of all slots and returns the former slots.
    fn replace(&mut self, other: Self) -> Self;
}

impl<V> DynFields for Vec<Option<V>> {
    type Item = V;

    fn field(&self, fields: &'static [TypeReflection], field: Option<&'static TypeReflection>) -> (r: Option<&V>)
        ensures
            match field_position(fields@, field) {
                Some(k) => match r {
                    Some(v) => k < self@.len() && self@[k] == Some(*v),
                    None => k >= self@.len() || self@[k] is None,
                },
                None => r is None,
            },
    {
        match select_field(fields, field) {
            Some(k) => {
                if k < self.len() {
                    self[k].as_ref()
                } else {
                    None
                }
            },
            None => None,
        }
    }

    fn field_mut(&mut self, fields: &'static [TypeReflection], field: Option<&'static TypeReflection>) -> (r: Option<&mut V>)
        ensures
            match field_position(fields@, field) {
                Some(k) => if k < old(self)@.len() && old(self)@[k] is Some {
                    &&& r is Some
                    &&& *r.unwrap() == old(self)@[k]->0
                    &&& final(self)@ == old(self)@.update(k, Some(*final(r.unwrap())))
                } else {
                    r is None && final(self)@ == old(self)@
                },
                None => r is None && final(self)@ == old(self)@,
            },
    {
        match select_field(fields, field) {
            Some(k) => {
                if k < self.len() {
                    self[k].as_mut()
                } else {
                    None
                }
            },
            None => None,
        }
    }

    fn take_field(&mut self, fields: &'static [TypeReflection], field: Option<&'static TypeReflection>) -> (r: Option<V>)
        ensures
            match field_position(fields@, field) {
                Some(k) => if k < old(self)@.len() {
                    r == old(self)@[k] && final(self)@ == old(self)@.update(k, None)
                } else {
                    r is None && final(self)@ == old(self)@
                },
                None => r is None && final(self)@ == old(self)@,
            },
    {
        match select_field(fields, field) {
            Some(k) => {
                if k < self.len() {
                    self[k].take()
                } else {
                    None
                }
            },
            None => None,
        }
    }

    fn replace(&mut self, other: Self) -> (r: Self)
        ensures
            r == *old(self),
            *final(self) == other,
    {
        let mut other = other;
        std::mem::swap(self, &mut other);
        other
    }
}

impl<S: Stage> Node<S> {
    /// One input slot per declared input, and one output slot per declared
    /// output, in the node and in each cache entry.
    pub open spec fn wf(&self) -> bool {
        &&& self.inputs@.len() == self.shape.inputs@.len()
        &&& self.outputs@.len() == self.shape.outputs@.len()
        &&& forall|j: int| 0 <= j < self.cache@.len() ==> (#[trigger] self.cache@[j]).outputs@.len() == self.shape.outputs@.len()
    }

    /// A node of `stage` with `initial_state`: the shape, evaluation
    /// strategy and reevaluation rule that the stage gives, every input and
    /// output slot empty, nothing cached, and its input marked changed.
    pub fn new(stage: S, initial_state: S::State) -> (r: Self)
        ensures
            r.wf(),
            r.stage == stage,
            r.state == initial_state,
            call_ensures(S::shape, (&stage,), r.shape),
            call_ensures(S::eval_strategy, (&stage,), r.eval_strategy),
            call_ensures(S::reeval_rule, (&stage,), r.reeval_rule),
            forall|i: int| 0 <= i < r.inputs@.len() ==> (#[trigger] r.inputs@[i]) is None,
            r.outputs@.len() == r.shape.outputs@.len(),
            forall|i: int| 0 <= i < r.outputs@.len() ==> (#[trigger] r.outputs@[i]) is None,
            r.cache@.len() == 0,
            r.input_changed,
    {
        let shape = stage.shape();
        let eval_strategy = stage.eval_strategy();
        let reeval_rule = stage.reeval_rule();
        let mut inputs: Vec<Option<(S::Value, ReevaluationRule)>> = Vec::new();
        let n = shape.inputs.len();
        let mut i: usize = 0;
        while i < n
            invariant
                n == shape.inputs@.len(),
                i <= n,
                inputs@.len() == i,
                forall|j: int| 0 <= j < i ==> (#[trigger] inputs@[j]) is None,
            decreases n - i,
        {
            inputs.push(None);
            i = i + 1;
        }
        let mut outputs: Vec<Option<S::Value>> = Vec::new();
        let m = shape.outputs.len();
        let mut j: usize = 0;
        while j < m
            invariant
                m == shape.outputs@.len(),
                j <= m,
                outputs@.len() == j,
                forall|k: int| 0 <= k < j ==> (#[trigger] outputs@[k]) is None,
            decreases m - j,
        {
            outputs.push(None);
            j = j + 1;
        }
        Node {
            stage,
            state: initial_state,
            inputs,
            outputs,
            cache: Vec::new(),
            input_changed: true,
            shape,
            eval_strategy,
            reeval_rule,
        }
    }

    /// The parts of a node that evaluating it leaves alone.
    pub open spec fn same_frame(&self, other: &Self) -> bool {
        &&& self.stage == other.stage
        &&& self.shape == other.shape
        &&& self.eval_strategy == other.eval_strategy
        &&& self.reeval_rule == other.reeval_rule
    }

    /// The stage's `call` can give `new_state`, and outputs that are `out`
    /// once fitted to one slot per declared output, on this node's state and
    /// the values of its inputs, in order.
    pub open spec fn computes(&self, out: Seq<Option<S::Value>>, new_state: S::State) -> bool {
        exists|a: Vec<S::Value>, o: Vec<Option<S::Value>>|
            #![trigger call_ensures(S::call, (&self.stage, &self.state, &a), (o, new_state))]
            a@ == input_values(self.inputs@) && out == fitted(o@, self.shape.outputs@.len() as int)
                && call_ensures(S::call, (&self.stage, &self.state, &a), (o, new_state))
    }

    /// What evaluating a `CacheAll` node with all its inputs gives: for
    /// inputs that agree with a cache entry, the stage is not run (state and
    /// cache unchanged) and the outputs are clones of the entry's; else the
    /// stage's `call` computes the outputs and the new state, and one entry
    /// is added, recording clones of the inputs and of the outputs.
    pub open spec fn cache_all_outcome(&self, after: &Self, produced: Seq<Option<S::Value>>) -> bool {
        match cache_hit(self.cache@, self.inputs@, 0) {
            Some(j) => {
                &&& after.state == self.state
                &&& after.cache == self.cache
                &&& clones_of(self.cache@[j].outputs@, produced)
            },
            None => {
                &&& self.computes(produced, after.state)
                &&& after.cache@.len() == self.cache@.len() + 1
                &&& after.cache@.take(self.cache@.len() as int) == self.cache@
                &&& clones_of(produced, after.cache@.last().outputs@)
                &&& inputs_cloned(self.inputs@, after.cache@.last().inputs@)
            },
        }
    }

    /// What evaluating a node with all its inputs gives, by its rule: the
    /// stage's `call` computes the outputs and the new state with the cache
    /// unchanged, or, for `CacheAll` (with a lawful `==`), the cache's answer.
    pub open spec fn eval_outcome(&self, after: &Self, produced: Seq<Option<S::Value>>) -> bool {
        &&& self.reeval_rule != ReevaluationRule::CacheAll ==> {
            &&& self.computes(produced, after.state)
            &&& after.cache == self.cache
        }
        &&& self.reeval_rule == ReevaluationRule::CacheAll && S::Value::obeys_eq_spec()
            ==> self.cache_all_outcome(after, produced)
    }

    /// Evaluates the stage with the node's inputs and state. Each declared
    /// input in turn must hold a value, else the error names the first
    /// empty one. The stage's `call` receives the input values in order; a
    /// `Move` node gives its inputs up, the others keep them. A `CacheAll`
    /// node answers from its cache when it saw equal inputs before, and
    /// otherwise records the new inputs and outputs.
    pub fn evaluate(&mut self) -> (r: Result<Vec<Option<S::Value>>, InjectionError>)
        requires
            old(self).wf(),
        ensures
            final(self).wf(),
            final(self).same_frame(old(self)),
            final(self).outputs == old(self).outputs,
            final(self).input_changed == old(self).input_changed,
            match first_missing(old(self).inputs@, 0) {
                Some(k) => {
                    &&& r == Err::<Vec<Option<S::Value>>, InjectionError>(InjectionError::InputNotFound(Some(&old(self).shape.inputs@[k])))
                    &&& final(self).state == old(self).state
                    &&& final(self).cache == old(self).cache
                    &&& old(self).reeval_rule == ReevaluationRule::Move ==> final(self).inputs@ == taken_upto(old(self).inputs@, k)
                    &&& old(self).reeval_rule != ReevaluationRule::Move ==> final(self).inputs@ == old(self).inputs@
                },
                None => r matches Ok(v) && {
                    &&& v@.len() == old(self).shape.outputs@.len()
                    &&& old(self).reeval_rule == ReevaluationRule::Move ==> final(self).inputs@ == taken_upto(old(self).inputs@, old(self).inputs@.len() as int)
                    &&& old(self).reeval_rule != ReevaluationRule::Move ==> final(self).inputs@ == old(self).inputs@
                    &&& old(self).eval_outcome(final(self), v@)
                },
            },
    {
        let n = self.shape.inputs.len();
        let moving = self.reeval_rule == ReevaluationRule::Move;
        let ghost old_inputs = self.inputs@;
        proof { crate::node::lemma_first_missing(old_inputs, 0); }
        let mut args: Vec<S::Value> = Vec::new();
        let mut i: usize = 0;
        while i < n
            invariant
                old(self).wf(),
                n == self.shape.inputs@.len(),
                n == self.inputs@.len(),
                old_inputs.len() == n,
                i <= n,
                moving == (self.reeval_rule == ReevaluationRule::Move),
                forall|j: int| 0 <= j < i ==> old_inputs[j] is Some,
                first_missing(old_inputs, 0) == first_missing(old_inputs, i as int),
                moving ==> self.inputs@ == taken_upto(old_inputs, i as int),
                moving ==> args@.len() == i,
                moving ==> forall|j: int| 0 <= j < i ==> args@[j] == (#[trigger] old_inputs[j]).unwrap().0,
                !moving ==> args@.len() == 0,
                !moving ==> self.inputs@ == old_inputs,
                self.stage == old(self).stage,
                self.state == old(self).state,
                self.shape == old(self).shape,
                self.eval_strategy == old(self).eval_strategy,
                self.reeval_rule == old(self).reeval_rule,
                self.outputs == old(self).outputs,
                self.cache == old(self).cache,
                self.input_changed == old(self).input_changed,
                old_inputs == old(self).inputs@,
            decreases n - i,
        {
            if moving {
                let slot = self.inputs[i].take();
                match slot {
                    Some((v, _rule)) => {
                        args.push(v);
                    },
                    None => {
                        proof {
                            assert(old_inputs[i as int] is None);
                            assert(self.inputs@ =~= taken_upto(old_inputs, i as int));
                        }
                        return Err(InjectionError::InputNotFound(Some(&self.shape.inputs[i])));
                    },
                }
                proof {
                    assert(self.inputs@ =~= taken_upto(old_inputs, i + 1));
                }
            } else {
                match &self.inputs[i] {
                    Some(_) => {},
                    None => {
                        return Err(InjectionError::InputNotFound(Some(&self.shape.inputs[i])));
                    },
                }
            }
            i = i + 1;
        }
        proof {
            assert(first_missing(old_inputs, n as int) is None);
        }
        if self.reeval_rule == ReevaluationRule::CacheAll {
            let c = self.cache.len();
            let mut j: usize = 0;
            while j < c
                invariant
                    old(self).wf(),
                old(self).wf(),
                    c == self.cache@.len(),
                    j <= c,
                    self.cache == old(self).cache,
                    self.inputs@ == old_inputs,
                    self.stage == old(self).stage,
                    self.state == old(self).state,
                    self.shape == old(self).shape,
                    self.eval_strategy == old(self).eval_strategy,
                    self.reeval_rule == old(self).reeval_rule,
                    self.outputs == old(self).outputs,
                    self.input_changed == old(self).input_changed,
                    self.inputs@.len() == self.shape.inputs@.len(),
                    old_inputs == old(self).inputs@,
                    first_missing(old_inputs, 0) is None,
                    self.reeval_rule == ReevaluationRule::CacheAll,
                    S::Value::obeys_eq_spec() ==> cache_hit(self.cache@, old_inputs, 0) == cache_hit(self.cache@, old_inputs, j as int),
                decreases c - j,
            {
                if inputs_equal(&self.cache[j].inputs, &self.inputs) {
                    let outputs = self.cache[j].outputs.clone();
                    proof {
                        if S::Value::obeys_eq_spec() {
                            assert(cache_hit(self.cache@, old_inputs, j as int) == Some(j as int));
                        }
                        assert forall|i: int| 0 <= i < outputs@.len() implies
                            cloned::<Option<S::Value>>(#[trigger] self.cache@[j as int].outputs@[i], outputs@[i]) by {
                            assert(cloned::<Option<S::Value>>(self.cache[j as int].outputs[i], outputs[i]));
                        }
                    }
                    return Ok(outputs);
                }
                j = j + 1;
            }
        }
        let mut rules: Vec<ReevaluationRule> = Vec::new();
        if !moving {
            let mut j: usize = 0;
            while j < n
                invariant
                    old(self).wf(),
                old(self).wf(),
                    n == old_inputs.len(),
                    j <= n,
                    !moving,
                    forall|m: int| 0 <= m < n ==> (#[trigger] old_inputs[m]) is Some,
                    self.inputs@ == taken_upto(old_inputs, j as int),
                    args@.len() == j,
                    rules@.len() == j,
                    forall|m: int| 0 <= m < j ==> old_inputs[m] == Some((#[trigger] args@[m], rules@[m])),
                    self.stage == old(self).stage,
                    self.state == old(self).state,
                    self.shape == old(self).shape,
                    self.eval_strategy == old(self).eval_strategy,
                    self.reeval_rule == old(self).reeval_rule,
                    self.outputs == old(self).outputs,
                    self.cache == old(self).cache,
                    self.input_changed == old(self).input_changed,
                    old_inputs == old(self).inputs@,
                decreases n - j,
            {
                let slot = self.inputs[j].take();
                proof {
                    assert(slot == old_inputs[j as int]);
                }
                match slot {
                    Some((v, rule)) => {
                        args.push(v);
                        rules.push(rule);
                    },
                    None => {},
                }
                proof {
                    assert(self.inputs@ =~= taken_upto(old_inputs, j + 1));
                }
                j = j + 1;
            }
        }
        proof {
            assert(args@ =~= input_values(old_inputs));
        }
        let (raw, new_state) = self.stage.call(&self.state, &args);
        let result = fit_outputs(raw, self.shape.outputs.len());
        proof {
            assert(call_ensures(S::call, (&old(self).stage, &old(self).state, &args), (raw, new_state)));
            assert(old(self).computes(result@, new_state));
        }
        let ghost st = new_state;
        self.state = new_state;
        if !moving {
            let mut k: usize = n;
            while k > 0
                invariant
                    old(self).wf(),
                old(self).wf(),
                    n == old_inputs.len(),
                    k <= n,
                    self.inputs@.len() == n,
                    args@.len() == k,
                    rules@.len() == n,
                    forall|m: int| 0 <= m < k ==> old_inputs[m] == Some((#[trigger] args@[m], rules@[m])),
                    forall|m: int| 0 <= m < n && m >= k ==> (#[trigger] self.inputs@[m]) == old_inputs[m],
                    self.state == st,
                    self.stage == old(self).stage,
                    self.shape == old(self).shape,
                    self.eval_strategy == old(self).eval_strategy,
                    self.reeval_rule == old(self).reeval_rule,
                    self.outputs == old(self).outputs,
                    self.cache == old(self).cache,
                    self.input_changed == old(self).input_changed,
                decreases k,
            {
                k = k - 1;
                let v = args.pop().unwrap();
                let rule = rules[k];
                self.inputs.set(k, Some((v, rule)));
            }
            proof {
                assert(self.inputs@ =~= old_inputs);
            }
        }
        if self.reeval_rule == ReevaluationRule::CacheAll {
            let copy = result.clone();
            proof {
                assert forall|i: int| 0 <= i < result@.len() implies
                    cloned::<Option<S::Value>>(#[trigger] result@[i], copy@[i]) by {
                    assert(cloned::<Option<S::Value>>(result[i], copy[i]));
                }
            }
            let entry = Cached { inputs: clone_inputs(&self.inputs), outputs: copy };
            let ghost before = self.cache@;
            self.cache.push(entry);
            proof {
                assert(self.cache@.take(before.len() as int) =~= before);
            }
        }
        Ok(result)
    }

    /// The inputs that a full evaluation leaves: a `Move` node gives them
    /// all up, any other node keeps them.
    pub open spec fn given_up_inputs(&self) -> Seq<Option<(S::Value, ReevaluationRule)>> {
        if self.reeval_rule == ReevaluationRule::Move {
            taken_upto(self.inputs@, self.inputs@.len() as int)
        } else {
            self.inputs@
        }
    }

    /// `after` is what a successful `run` makes of this node: evaluated
    /// (see `eval_outcome`), with its inputs given up as its rule says and
    /// its change mark cleared, when it needs evaluating; left as it is
    /// otherwise.
    pub open spec fn ran_node(&self, after: &Self) -> bool {
        if self.needs_eval() {
            &&& self.eval_outcome(after, after.outputs@)
            &&& after.same_frame(self)
            &&& after.inputs@ == self.given_up_inputs()
            &&& !after.input_changed
        } else {
            *after == *self
        }
    }

    /// Evaluates the node and puts the new outputs in place (see
    /// `eval_outcome`); returns the outputs that were there before.
    pub fn eval(&mut self) -> (r: Result<Vec<Option<S::Value>>, InjectionError>)
        requires
            old(self).wf(),
        ensures
            final(self).wf(),
            final(self).same_frame(old(self)),
            final(self).input_changed == old(self).input_changed,
            r is Ok ==> old(self).eval_outcome(final(self), final(self).outputs@),
            r is Ok ==> final(self).inputs@ == old(self).given_up_inputs(),
            match r {
                Ok(prev) => prev == old(self).outputs && first_missing(old(self).inputs@, 0) is None,
                Err(e) => {
                    &&& first_missing(old(self).inputs@, 0) matches Some(k)
                    &&& e == InjectionError::InputNotFound(Some(&old(self).shape.inputs@[k]))
                    &&& final(self).outputs == old(self).outputs
                    &&& final(self).state == old(self).state
                    &&& final(self).cache == old(self).cache
                },
            },
    {
        let mut outputs = self.evaluate()?;
        std::mem::swap(&mut self.outputs, &mut outputs);
        Ok(outputs)
    }
    /// The node must be evaluated: it moves its outputs (`Move`), or an
    /// input changed since its last evaluation.
    pub open spec fn needs_eval(&self) -> bool {
        self.reeval_rule == ReevaluationRule::Move || self.input_changed
    }

    /// Evaluates the node when it needs it, putting the new outputs in place
    /// (see `eval_outcome`), and then clears its changed mark; returns
    /// whether it evaluated. A caching node whose inputs did not change is
    /// left as it is.
    pub fn run(&mut self) -> (r: Result<bool, InjectionError>)
        requires
            old(self).wf(),
        ensures
            final(self).wf(),
            final(self).same_frame(old(self)),
            !old(self).needs_eval() ==> r == Ok::<bool, InjectionError>(false) && *final(self) == *old(self),
            old(self).needs_eval() && r is Ok ==> old(self).eval_outcome(final(self), final(self).outputs@),
            r is Ok ==> old(self).ran_node(final(self)),
            old(self).needs_eval() ==> match r {
                Ok(evaluated) => {
                    &&& evaluated
                    &&& !final(self).input_changed
                    &&& first_missing(old(self).inputs@, 0) is None
                },
                Err(e) => {
                    &&& first_missing(old(self).inputs@, 0) matches Some(k)
                    &&& e == InjectionError::InputNotFound(Some(&old(self).shape.inputs@[k]))
                    &&& final(self).input_changed == old(self).input_changed
                    &&& final(self).outputs == old(self).outputs
                    &&& final(self).state == old(self).state
                    &&& final(self).cache == old(self).cache
                },
            },
    {
        if self.reeval_rule == ReevaluationRule::Move || self.input_changed {
            self.eval()?;
            self.input_changed = false;
            Ok(true)
        } else {
            Ok(false)
        }
    }

    /// The output slot that a connection reads, when it holds a value.
    pub open spec fn available_output(&self, output: Option<&'static TypeReflection>) -> Option<int> {
        match output_position(*self.shape, output) {
            Some(k) => if k < self.outputs@.len() && self.outputs@[k] is Some {
                Some(k)
            } else {
                None
            },
            None => None,
        }
    }

    /// An available output is a slot of the node's outputs.
    pub proof fn lemma_available_output(&self, output: Option<&'static TypeReflection>)
        ensures
            self.available_output(output) matches Some(k) ==> 0 <= k < self.outputs@.len()
                && 0 <= k < self.shape.outputs@.len() && self.outputs@[k] is Some,
    {
        match output {
            None => crate::stage::lemma_find_named_from(self.shape.outputs@, unnamed_output_name(), 0),
            Some(f) => crate::stage::lemma_find_named_from(self.shape.outputs@, f.name@, 0),
        }
    }

    /// Position of the output that `output` selects, if that slot holds a value.
    pub fn find_available_output(&self, output: Option<&'static TypeReflection>) -> (r: Option<usize>)
        ensures
            r matches Some(k) ==> self.available_output(output) == Some(k as int)
                && k < self.shape.outputs@.len() && k < self.outputs@.len(),
            r is None ==> self.available_output(output) is None,
    {
        let unnamed = "_";
        proof {
            reveal_strlit("_");
            assert(unnamed@ =~= unnamed_output_name());
        }
        let pos = match output {
            None => find_field(self.shape.outputs, unnamed),
            Some(f) => {
                if crate::text::str_eq(f.name, unnamed) {
                    None
                } else {
                    find_field(self.shape.outputs, f.name)
                }
            },
        };
        match pos {
            Some(k) => {
                if k < self.outputs.len() && self.outputs[k].is_some() {
                    Some(k)
                } else {
                    None
                }
            },
            None => None,
        }
    }

    /// Takes the outputs of this (parent) node and uses them to set an input
    /// of `child`. A connection without input (`None`) carries no data. A
    /// `Move` parent hands its output over and marks the child's input
    /// changed; any other parent hands a copy, marking the child's input
    /// changed when the slot was empty or held a different value. The output
    /// must exist and hold a value, and its type must be the base type of
    /// the input.
    pub fn flow_data(
        &mut self,
        child: &mut Node<S>,
        output: Option<&'static TypeReflection>,
        input: Option<&'static TypeReflection>,
    ) -> (r: Result<(), InjectionError>)
        requires
            old(child).wf(),
            old(self).wf(),
        ensures
            final(child).wf(),
            final(self).wf(),
            final(child).same_frame(old(child)),
            final(child).state == old(child).state,
            final(child).outputs == old(child).outputs,
            final(child).cache == old(child).cache,
            final(self).same_frame(old(self)),
            final(self).state == old(self).state,
            final(self).inputs == old(self).inputs,
            final(self).cache == old(self).cache,
            final(self).input_changed == old(self).input_changed,
            match input {
                None => r is Ok && *final(self) == *old(self) && *final(child) == *old(child),
                Some(f) => match find_named(old(child).shape.inputs@, f.name@) {
                    None => {
                        &&& r == Err::<(), InjectionError>(InjectionError::InputNotFound(None))
                        &&& *final(self) == *old(self)
                        &&& *final(child) == *old(child)
                    },
                    Some(i) => match old(self).available_output(output) {
                        None => {
                            &&& r == Err::<(), InjectionError>(InjectionError::OutputNotFound(output))
                            &&& *final(self) == *old(self)
                            &&& *final(child) == *old(child)
                        },
                        Some(k) => {
                            let v = old(self).outputs@[k].unwrap();
                            let fits = old(self).shape.outputs@[k].ty@ == base_type(old(child).shape.inputs@[i].ty@);
                            &&& old(self).reeval_rule == ReevaluationRule::Move ==>
                                final(self).outputs@ == old(self).outputs@.update(k, None)
                            &&& old(self).reeval_rule != ReevaluationRule::Move ==>
                                final(self).outputs == old(self).outputs
                            &&& !fits ==> {
                                &&& r == Err::<(), InjectionError>(InjectionError::OutputTypeMismatch(output))
                                &&& *final(child) == *old(child)
                            }
                            &&& fits ==> {
                                &&& r is Ok
                                &&& final(child).inputs@.len() == old(child).inputs@.len()
                                &&& forall|j: int| 0 <= j < old(child).inputs@.len() && j != i
                                    ==> final(child).inputs@[j] == old(child).inputs@[j]
                                &&& old(self).reeval_rule == ReevaluationRule::Move ==> {
                                    &&& final(child).inputs@[i] == Some((v, ReevaluationRule::Move))
                                    &&& final(child).input_changed
                                }
                                &&& old(self).reeval_rule != ReevaluationRule::Move ==> {
                                    &&& final(child).inputs@[i] matches Some((c, rule))
                                        && rule == ReevaluationRule::CacheLast && cloned(v, c)
                                    &&& old(child).input_changed ==> final(child).input_changed
                                    &&& old(child).inputs@[i] is None ==> final(child).input_changed
                                    &&& S::Value::obeys_eq_spec() ==> final(child).input_changed == copy_marks_changed(*old(child), i, v)
                                }
                            }
                        },
                    },
                },
            },
    {
        let f = match input {
            None => {
                return Ok(());
            },
            Some(f) => f,
        };
        let i = match find_field(child.shape.inputs, f.name) {
            None => {
                return Err(InjectionError::InputNotFound(None));
            },
            Some(i) => i,
        };
        let k = match self.find_available_output(output) {
            None => {
                return Err(InjectionError::OutputNotFound(output));
            },
            Some(k) => k,
        };
        let fits = type_accepts(self.shape.outputs[k].ty, child.shape.inputs[i].ty);
        if self.reeval_rule == ReevaluationRule::Move {
            let taken = self.outputs[k].take();
            match taken {
                Some(v) => {
                    if !fits {
                        return Err(InjectionError::OutputTypeMismatch(output));
                    }
                    child.input_changed = true;
                    child.inputs.set(i, Some((v, ReevaluationRule::Move)));
                    Ok(())
                },
                None => {
                    Err(InjectionError::OutputNotFound(output))
                },
            }
        } else {
            match &self.outputs[k] {
                Some(v) => {
                    if !fits {
                        return Err(InjectionError::OutputTypeMismatch(output));
                    }
                    let changed = match &child.inputs[i] {
                        Some((existing, _)) => *v != *existing,
                        None => true,
                    };
                    if changed && !child.input_changed {
                        child.input_changed = true;
                    }
                    child.inputs.set(i, Some((v.clone(), ReevaluationRule::CacheLast)));
                    Ok(())
                },
                None => {
                    Err(InjectionError::OutputNotFound(output))
                },
            }
        }
    }

    /// Gets the shape of the stage.
    pub fn stage_shape(&self) -> (r: &'static StageShape)
        ensures
            r == self.shape,
    {
        self.shape
    }

    /// When the node is evaluated.
    pub fn eval_strategy(&self) -> (r: EvalStrategy)
        ensures
            r == self.eval_strategy,
    {
        self.eval_strategy
    }

    /// When the node is evaluated again.
    pub fn reeval_rule(&self) -> (r: ReevaluationRule)
        ensures
            r == self.reeval_rule,
    {
        self.reeval_rule
    }

    /// Marks whether an input has been modified since the last evaluation.
    pub fn set_input_changed(&mut self, val: bool)
        ensures
            *final(self) == (Node { input_changed: val, ..*old(self) }),
    {
        self.input_changed = val;
    }

    /// Whether an input has been modified since the last evaluation.
    pub fn input_changed(&self) -> (r: bool)
        ensures
            r == self.input_changed,
    {
        self.input_changed
    }
}

} // verus!
