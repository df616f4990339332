//! What the `#[stage]` attribute decides about a stage from its arguments
//! and from the signature of the function it decorates: laziness, caching,
//! named outputs, state, and the inputs with how each is passed.
use vstd::prelude::*;
use crate::stage::{RefType, EvalStrategy, ReevaluationRule};
use crate::text::{str_eq, borrow_parts, has_prefix, ref_prefix, is_mut_borrow};

verus! {

/// How a stage caches its results.
#[derive(PartialEq, Eq, Clone, Copy, Debug, Structural)]
pub enum CacheStrategy {
    NoCache,
    Last,
    All,
}

/// A `name: type` pair written in an attribute argument.
#[derive(Debug)]
pub struct ParamLike {
    pub name: String,
    pub ty: String,
}

/// One argument of the attribute: a flag, `out(...)` or `state(...)`.
#[derive(Debug)]
pub enum StageArg {
    Flag(String),
    Output(Vec<ParamLike>),
    State(Vec<ParamLike>),
}

/// One parameter of the decorated function.
#[derive(Debug)]
pub enum FnArg {
    /// A `self` parameter.
    Receiver,
    /// A typed parameter; `ident` is the name when the pattern is a plain
    /// identifier.
    Typed { ident: Option<String>, ty: String },
}

/// The signature of the decorated function.
#[derive(Debug)]
pub struct FnSignature {
    pub name: String,
    pub is_async: bool,
    /// The printed return type; `None` for a function returning `()`.
    pub output: Option<String>,
    pub inputs: Vec<FnArg>,
}

/// The outputs of a stage: named ones from `out(...)`, or the function's
/// single return value.
#[derive(Debug)]
pub enum OutputParams {
    Explicit(Vec<ParamLike>),
    Implicit(String),
}

/// One input of a stage.
#[derive(Debug)]
pub struct InputParam {
    pub ty: String,
    pub ref_type: RefType,
    pub clean_name: String,
}

/// Everything the attribute decided about a stage.
#[derive(Debug)]
pub struct StageConfig {
    pub stage_name: String,
    pub is_lazy: bool,
    pub is_async: bool,
    pub cache_strategy: CacheStrategy,
    pub outputs: OutputParams,
    pub inputs: Vec<InputParam>,
    pub states: Vec<ParamLike>,
}

/// The reflection of a stage as text: its name, and each input and output
/// as a `name: type` pair.
#[derive(Debug)]
pub struct ShapeText {
    pub stage_name: String,
    pub inputs: Vec<ParamLike>,
    pub outputs: Vec<ParamLike>,
}

/// The flags that the attribute knows.
pub open spec fn known_flag(f: Seq<char>) -> bool {
    f == "lazy"@ || f == "cache_last"@ || f == "transparent"@ || f == "cache_all"@
}

/// The first argument among the first `k` that is an unknown flag.
pub open spec fn first_unknown_flag(args: Seq<StageArg>, k: int) -> Option<int>
    decreases k,
{
    if k <= 0 {
        None
    } else {
        match first_unknown_flag(args, k - 1) {
            Some(j) => Some(j),
            None => match args[k - 1] {
                StageArg::Flag(f) => if known_flag(f@) { None } else { Some(k - 1) },
                _ => None,
            },
        }
    }
}

/// The argument is the flag `lazy`.
pub open spec fn is_lazy_flag(a: StageArg) -> bool {
    a matches StageArg::Flag(f) && f@ == "lazy"@
}

/// Some argument among the first `k` is the flag `lazy`.
pub open spec fn lazy_in(args: Seq<StageArg>, k: int) -> bool {
    exists|j: int| 0 <= j < k && is_lazy_flag(#[trigger] args[j])
}

/// The cache strategy that the last caching flag among the first `k`
/// arguments chose.
pub open spec fn cache_in(args: Seq<StageArg>, k: int) -> CacheStrategy
    decreases k,
{
    if k <= 0 {
        CacheStrategy::NoCache
    } else {
        match args[k - 1] {
            StageArg::Flag(f) => if f@ == "cache_last"@ || f@ == "transparent"@ {
                CacheStrategy::Last
            } else if f@ == "cache_all"@ {
                CacheStrategy::All
            } else {
                cache_in(args, k - 1)
            },
            _ => cache_in(args, k - 1),
        }
    }
}

/// The view of a list of `name: type` pairs.
pub open spec fn params_view(ps: Seq<ParamLike>) -> Seq<(Seq<char>, Seq<char>)> {
    ps.map_values(|p: ParamLike| (p.name@, p.ty@))
}

/// The named outputs of the `out(...)` arguments among the first `k`, in
/// order; `None` when there is no such argument.
pub open spec fn outputs_in(args: Seq<StageArg>, k: int) -> Option<Seq<(Seq<char>, Seq<char>)>>
    decreases k,
{
    if k <= 0 {
        None
    } else {
        match args[k - 1] {
            StageArg::Output(list) => match outputs_in(args, k - 1) {
                Some(before) => Some(before + params_view(list@)),
                None => Some(params_view(list@)),
            },
            _ => outputs_in(args, k - 1),
        }
    }
}

/// The state parameters of the `state(...)` arguments among the first `k`.
pub open spec fn states_in(args: Seq<StageArg>, k: int) -> Seq<(Seq<char>, Seq<char>)>
    decreases k,
{
    if k <= 0 {
        Seq::empty()
    } else {
        match args[k - 1] {
            StageArg::State(list) => states_in(args, k - 1) + params_view(list@),
            _ => states_in(args, k - 1),
        }
    }
}

/// A parameter's name without one leading `_`.
pub open spec fn clean_name(name: Seq<char>) -> Seq<char> {
    if name.len() > 0 && name[0] == '_' {
        name.drop_first()
    } else {
        name
    }
}

/// How a parameter of printed type `ty` is passed.
pub open spec fn ref_type_of(ty: Seq<char>) -> RefType {
    if is_mut_borrow(ty) {
        RefType::BorrowedMut
    } else if has_prefix(ty, ref_prefix()) {
        RefType::Borrowed
    } else {
        RefType::Owned
    }
}

/// The inputs of a stage from the first `k` parameters of its function:
/// each typed parameter named by a plain identifier, with its clean name,
/// its type and how it is passed.
pub open spec fn inputs_from(params: Seq<FnArg>, k: int) -> Seq<(Seq<char>, Seq<char>, RefType)>
    decreases k,
{
    if k <= 0 {
        Seq::empty()
    } else {
        match params[k - 1] {
            FnArg::Typed { ident: Some(name), ty } =>
                inputs_from(params, k - 1).push((clean_name(name@), ty@, ref_type_of(ty@))),
            _ => inputs_from(params, k - 1),
        }
    }
}

/// The view of a stage's inputs.
pub open spec fn inputs_view(ps: Seq<InputParam>) -> Seq<(Seq<char>, Seq<char>, RefType)> {
    ps.map_values(|p: InputParam| (p.clean_name@, p.ty@, p.ref_type))
}

impl StageArg {
    /// The argument written as the identifier `ident`, followed by a
    /// parenthesized `name: type` list when `params` is `Some`. `out` and
    /// `state` need the list and give `Output` and `State`; any other
    /// identifier is a flag, which takes none.
    pub fn from_parts(ident: &String, params: Option<Vec<ParamLike>>) -> (r: Result<StageArg, String>)
        ensures
            ident@ == "out"@ ==> match params {
                Some(p) => r matches Ok(StageArg::Output(q)) && q == p,
                None => r matches Err(m) && m@ == "expected parentheses"@,
            },
            ident@ == "state"@ ==> match params {
                Some(p) => r matches Ok(StageArg::State(q)) && q == p,
                None => r matches Err(m) && m@ == "expected parentheses"@,
            },
            ident@ != "out"@ && ident@ != "state"@ ==> match params {
                None => r matches Ok(StageArg::Flag(f)) && f@ == ident@,
                Some(_) => r matches Err(m) && m@ == "expected `,`"@,
            },
    {
        let name = ident.as_str();
        let is_out = str_eq(name, "out");
        let is_state = str_eq(name, "state");
        proof {
            reveal_strlit("out");
            reveal_strlit("state");
            assert("out"@.len() == 3 && "state"@.len() == 5);
        }
        if is_out || is_state {
            match params {
                Some(p) => {
                    if is_out {
                        Ok(StageArg::Output(p))
                    } else {
                        Ok(StageArg::State(p))
                    }
                },
                None => Err(String::from_str("expected parentheses")),
            }
        } else {
            match params {
                None => Ok(StageArg::Flag(copy_string(ident))),
                Some(_) => Err(String::from_str("expected `,`")),
            }
        }
    }
}

/// The `name: type` pairs of a stage's inputs: each clean name with the
/// parameter's full type.
pub open spec fn input_fields(ps: Seq<InputParam>) -> Seq<(Seq<char>, Seq<char>)> {
    ps.map_values(|p: InputParam| (p.clean_name@, p.ty@))
}

/// The `name: type` pairs of a stage's outputs: the named outputs, or the
/// single unnamed output `_` of the function's return type.
pub open spec fn output_fields(o: OutputParams) -> Seq<(Seq<char>, Seq<char>)> {
    match o {
        OutputParams::Explicit(list) => params_view(list@),
        OutputParams::Implicit(ty) => seq![("_"@, ty@)],
    }
}

/// A copy of a string.
fn copy_string(s: &String) -> (r: String)
    ensures
        r@ == s@,
{
    s.clone()
}

/// A copy of a list of `name: type` pairs.
fn copy_params(ps: &Vec<ParamLike>) -> (r: Vec<ParamLike>)
    ensures
        params_view(r@) == params_view(ps@),
{
    let mut out: Vec<ParamLike> = Vec::new();
    let n = ps.len();
    let mut i: usize = 0;
    while i < n
        invariant
            n == ps@.len(),
            i <= n,
            out@.len() == i,
            params_view(out@) == params_view(ps@.take(i as int)),
        decreases n - i,
    {
        let ghost before = out@;
        out.push(ParamLike { name: copy_string(&ps[i].name), ty: copy_string(&ps[i].ty) });
        proof {
            let a = params_view(out@);
            let b = params_view(ps@.take(i + 1));
            assert forall|j: int| 0 <= j < a.len() implies a[j] == b[j] by {
                if j < i {
                    assert(out@[j] == before[j]);
                    assert(params_view(before)[j] == params_view(ps@.take(i as int))[j]);
                }
            }
            assert(a =~= b);
        }
        i = i + 1;
    }
    assert(ps@.take(n as int) =~= ps@);
    out
}

/// The name of a parameter without one leading `_`.
pub fn clean_param_name(name: &String) -> (r: String)
    ensures
        r@ == clean_name(name@),
{
    let s = name.as_str();
    let n = s.unicode_len();
    if n > 0 && s.get_char(0) == '_' {
        let rest = s.substring_char(1, n);
        assert(rest@ =~= name@.drop_first());
        String::from_str(rest)
    } else {
        copy_string(name)
    }
}

/// How a parameter of printed type `ty` is passed.
pub fn ref_type_from(ty: &String) -> (r: RefType)
    ensures
        r == ref_type_of(ty@),
{
    let (k, is_mut) = borrow_parts(ty.as_str());
    if is_mut {
        RefType::BorrowedMut
    } else if k > 0 {
        RefType::Borrowed
    } else {
        RefType::Owned
    }
}

impl StageConfig {
    /// The inputs of a stage from the parameters of its function.
    pub fn extract_input_params(inputs: &Vec<FnArg>) -> (r: Vec<InputParam>)
        ensures
            inputs_view(r@) == inputs_from(inputs@, inputs@.len() as int),
    {
        let mut result: Vec<InputParam> = Vec::new();
        let n = inputs.len();
        let mut i: usize = 0;
        while i < n
            invariant
                n == inputs@.len(),
                i <= n,
                inputs_view(result@) == inputs_from(inputs@, i as int),
            decreases n - i,
        {
            match &inputs[i] {
                FnArg::Typed { ident: Some(name), ty } => {
                    let param = InputParam {
                        ty: copy_string(ty),
                        ref_type: ref_type_from(ty),
                        clean_name: clean_param_name(name),
                    };
                    result.push(param);
                    assert(inputs_view(result@) =~= inputs_from(inputs@, i + 1));
                },
                _ => {
                    assert(inputs_view(result@) =~= inputs_from(inputs@, i + 1));
                },
            }
            i = i + 1;
        }
        result
    }

    /// The configuration of a stage from the attribute's arguments and the
    /// function's signature. The flags `lazy`, `cache_last` (also written
    /// `transparent`) and `cache_all` set laziness and caching (the last caching flag wins); `out(...)`
    /// names the outputs, replacing the function's return value;
    /// `state(...)` adds state parameters. An unknown flag is an error
    /// naming it.
    pub fn from_args(input_fn: &FnSignature, meta_args: &Vec<StageArg>) -> (r: Result<StageConfig, String>)
        ensures
            match first_unknown_flag(meta_args@, meta_args@.len() as int) {
                Some(j) => r matches Err(msg) && (meta_args@[j] matches StageArg::Flag(f)
                    && msg@ == "Unrecognized attribute: "@ + f@),
                None => r matches Ok(c) && {
                    &&& c.stage_name@ == input_fn.name@
                    &&& c.is_async == input_fn.is_async
                    &&& c.is_lazy == lazy_in(meta_args@, meta_args@.len() as int)
                    &&& c.cache_strategy == cache_in(meta_args@, meta_args@.len() as int)
                    &&& match outputs_in(meta_args@, meta_args@.len() as int) {
                        Some(outs) => c.outputs matches OutputParams::Explicit(list) && params_view(list@) == outs,
                        None => c.outputs matches OutputParams::Implicit(ty) && ty@ == match input_fn.output {
                            Some(t) => t@,
                            None => "()"@,
                        },
                    }
                    &&& params_view(c.states@) == states_in(meta_args@, meta_args@.len() as int)
                    &&& inputs_view(c.inputs@) == inputs_from(input_fn.inputs@, input_fn.inputs@.len() as int)
                },
            },
    {
        let mut is_lazy = false;
        let mut cache_strategy = CacheStrategy::NoCache;
        let mut explicit: Option<Vec<ParamLike>> = None;
        let mut states: Vec<ParamLike> = Vec::new();
        let n = meta_args.len();
        let mut i: usize = 0;
        while i < n
            invariant
                n == meta_args@.len(),
                i <= n,
                first_unknown_flag(meta_args@, i as int) is None,
                is_lazy == lazy_in(meta_args@, i as int),
                cache_strategy == cache_in(meta_args@, i as int),
                match outputs_in(meta_args@, i as int) {
                    Some(outs) => explicit matches Some(list) && params_view(list@) == outs,
                    None => explicit is None,
                },
                params_view(states@) == states_in(meta_args@, i as int),
            decreases n - i,
        {
            match &meta_args[i] {
                StageArg::Flag(ident) => {
                    let name = ident.as_str();
                    if str_eq(name, "lazy") {
                        is_lazy = true;
                        proof {
                            reveal_strlit("lazy");
                            reveal_strlit("cache_last");
                            reveal_strlit("cache_all");
                            reveal_strlit("transparent");
                            assert("lazy"@.len() == 4 && "transparent"@.len() == 11);
                            assert("lazy"@ != "cache_last"@);
                            assert("lazy"@ != "cache_all"@);
                        }
                    } else if str_eq(name, "cache_last") || str_eq(name, "transparent") {
                        proof {
                            reveal_strlit("lazy");
                            reveal_strlit("cache_last");
                            reveal_strlit("transparent");
                            reveal_strlit("cache_all");
                            assert("lazy"@.len() == 4 && "cache_all"@.len() == 9);
                        }
                        cache_strategy = CacheStrategy::Last;
                    } else if str_eq(name, "cache_all") {
                        proof {
                            reveal_strlit("cache_last");
                            reveal_strlit("transparent");
                            reveal_strlit("cache_all");
                            assert("cache_all"@.len() == 9 && "transparent"@.len() == 11 && "cache_last"@.len() == 10);
                        }
                        cache_strategy = CacheStrategy::All;
                    } else {
                        let mut msg = String::from_str("Unrecognized attribute: ");
                        msg.append(name);
                        proof {
                            assert(first_unknown_flag(meta_args@, i + 1) == Some(i as int));
                            lemma_first_unknown_flag_stays(meta_args@, i + 1, n as int);
                        }
                        return Err(msg);
                    }
                },
                StageArg::Output(list) => {
                    let copied = copy_params(list);
                    match explicit {
                        Some(mut outs) => {
                            let ghost before = outs@;
                            let mut more = copied;
                            outs.append(&mut more);
                            assert(params_view(outs@) =~= params_view(before) + params_view(copied@));
                            explicit = Some(outs);
                        },
                        None => {
                            explicit = Some(copied);
                        },
                    }
                },
                StageArg::State(list) => {
                    let ghost before = states@;
                    let mut copied = copy_params(list);
                    let ghost added = copied@;
                    states.append(&mut copied);
                    assert(params_view(states@) =~= params_view(before) + params_view(added));
                },
            }
            proof {
                assert(lazy_in(meta_args@, i + 1) == (lazy_in(meta_args@, i as int) || is_lazy_flag(meta_args@[i as int])));
            }
            i = i + 1;
        }
        let outputs = match explicit {
            Some(list) => OutputParams::Explicit(list),
            None => match &input_fn.output {
                Some(t) => OutputParams::Implicit(copy_string(t)),
                None => OutputParams::Implicit(String::from_str("()")),
            },
        };
        let inputs = Self::extract_input_params(&input_fn.inputs);
        Ok(StageConfig {
            stage_name: copy_string(&input_fn.name),
            is_lazy,
            is_async: input_fn.is_async,
            cache_strategy,
            outputs,
            inputs,
            states,
        })
    }

    /// The shape of the stage: its name, its inputs (clean name and full
    /// type, in order) and its outputs.
    pub fn shape(&self) -> (r: ShapeText)
        ensures
            r.stage_name@ == self.stage_name@,
            params_view(r.inputs@) == input_fields(self.inputs@),
            params_view(r.outputs@) == output_fields(self.outputs),
    {
        let mut inputs: Vec<ParamLike> = Vec::new();
        let n = self.inputs.len();
        let mut i: usize = 0;
        while i < n
            invariant
                n == self.inputs@.len(),
                i <= n,
                inputs@.len() == i,
                params_view(inputs@) == input_fields(self.inputs@.take(i as int)),
            decreases n - i,
        {
            let ghost before = inputs@;
            inputs.push(ParamLike { name: copy_string(&self.inputs[i].clean_name), ty: copy_string(&self.inputs[i].ty) });
            proof {
                let a = params_view(inputs@);
                let b = input_fields(self.inputs@.take(i + 1));
                assert forall|j: int| 0 <= j < a.len() implies a[j] == b[j] by {
                    if j < i {
                        assert(inputs@[j] == before[j]);
                        assert(params_view(before)[j] == input_fields(self.inputs@.take(i as int))[j]);
                    }
                }
                assert(a =~= b);
            }
            i = i + 1;
        }
        assert(self.inputs@.take(n as int) =~= self.inputs@);
        let outputs = match &self.outputs {
            OutputParams::Explicit(list) => copy_params(list),
            OutputParams::Implicit(ty) => {
                let mut v: Vec<ParamLike> = Vec::new();
                v.push(ParamLike { name: String::from_str("_"), ty: copy_string(ty) });
                proof {
                    reveal_strlit("_");
                    assert(params_view(v@) =~= seq![("_"@, ty@)]);
                }
                v
            },
        };
        ShapeText { stage_name: copy_string(&self.stage_name), inputs, outputs }
    }

    /// An urgent stage unless it is lazy.
    pub fn eval_strategy(&self) -> (r: EvalStrategy)
        ensures
            r == if self.is_lazy { EvalStrategy::Lazy } else { EvalStrategy::Urgent },
    {
        if self.is_lazy {
            EvalStrategy::Lazy
        } else {
            EvalStrategy::Urgent
        }
    }

    /// The reevaluation rule of the stage's cache strategy.
    pub fn reeval_rule(&self) -> (r: ReevaluationRule)
        ensures
            r == match self.cache_strategy {
                CacheStrategy::NoCache => ReevaluationRule::Move,
                CacheStrategy::Last => ReevaluationRule::CacheLast,
                CacheStrategy::All => ReevaluationRule::CacheAll,
            },
    {
        match self.cache_strategy {
            CacheStrategy::NoCache => ReevaluationRule::Move,
            CacheStrategy::Last => ReevaluationRule::CacheLast,
            CacheStrategy::All => ReevaluationRule::CacheAll,
        }
    }

    /// The state has a default exactly when the stage has no state
    /// parameters.
    pub fn state_has_default(&self) -> (r: bool)
        ensures
            r == (self.states@.len() == 0),
    {
        self.states.len() == 0
    }
}

/// Once an unknown flag has been met, it stays the first one.
pub proof fn lemma_first_unknown_flag_stays(args: Seq<StageArg>, k: int, m: int)
    requires
        0 <= k <= m,
        first_unknown_flag(args, k) is Some,
    ensures
        first_unknown_flag(args, m) == first_unknown_flag(args, k),
    decreases m - k,
{
    if m > k {
        lemma_first_unknown_flag_stays(args, k, m - 1);
    }
}

} // verus!
