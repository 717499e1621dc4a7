use vstd::prelude::*;
use crate::args::{Arguments, Function, FunctionName};
use crate::interpreters::{
    result_value, Argument, Declaration, Evaluation, Interpreter, InterpreterError, Value,
    SLOT_LIMIT,
};

verus! {

/// The name under which the pipeline declares its callable.
pub const DECLARED_NAME: &'static str = "foo";

/// How many slots the callable of an operation takes.
pub open spec fn arity(name: FunctionName) -> nat {
    if name == FunctionName::MapEach {
        1
    } else {
        2
    }
}

/// The slot values for the token at `index`: the token alone for `map`, the
/// index then the token for `map-indexed`, the accumulator then the token for
/// `fold`.
pub open spec fn slot_values(name: FunctionName, index: int, acc: Value, input: Value) -> Seq<
    Value,
> {
    match name {
        FunctionName::MapEach => seq![input],
        FunctionName::MapIndexed => seq![Value::Number(index), input],
        FunctionName::Fold => seq![acc, input],
    }
}

/// What one token emits, given the callable's result (`None` on failure):
/// the result, except in a fold; on failure the token itself under
/// passthrough, else nothing.
pub open spec fn step_out(name: FunctionName, passthrough: bool, input: Value, res: Option<Value>) -> Option<Value> {
    match res {
        Some(v) => if name == FunctionName::Fold { None } else { Some(v) },
        None => if passthrough { Some(input) } else { None },
    }
}

/// The accumulator after one token: a fold's successful result replaces it.
pub open spec fn step_acc(name: FunctionName, acc: Value, res: Option<Value>) -> Value {
    match res {
        Some(v) => if name == FunctionName::Fold { v } else { acc },
        None => acc,
    }
}

/// The optional value as a sequence of zero or one item.
pub open spec fn opt_seq(o: Option<Value>) -> Seq<Value> {
    match o {
        Some(v) => seq![v],
        None => seq![],
    }
}

/// The value of each argument.
pub open spec fn values(v: Seq<Argument>) -> Seq<Value> {
    v.map_values(|a: Argument| a@)
}

/// Text tokens as values.
pub open spec fn token_values(t: Seq<String>) -> Seq<Value> {
    t.map_values(|s: String| Value::Text(s@))
}

/// An evaluation is the call the pipeline makes for the token `input` at
/// `index`: the declared name, the operation's arity, and its slot values
/// bound in the first slots.
pub open spec fn call_fits(e: Evaluation, name: FunctionName, index: int, acc: Value, input: Value) -> bool {
    &&& e.id == DECLARED_NAME@
    &&& e.count == arity(name)
    &&& e.slots.len() == SLOT_LIMIT
    &&& forall|i: int| 0 <= i < arity(name) ==> e.slots[i] == Some(slot_values(name, index, acc, input)[i])
}

/// Replays a run over the first `bound.len()` tokens, where `bound[k]` says
/// whether token `k`'s slots were all bound (so that it was evaluated) and
/// `log` holds the evaluations in order. Gives what was emitted and the
/// accumulator, or `None` when the log does not fit the run.
pub open spec fn replay(name: FunctionName, passthrough: bool, acc0: Value, inputs: Seq<Value>, bound: Seq<bool>, log: Seq<Evaluation>) -> Option<(Seq<Value>, Value)>
    decreases bound.len(),
{
    if bound.len() == 0 {
        if log.len() == 0 {
            Some((seq![], acc0))
        } else {
            None
        }
    } else {
        let k = bound.len() - 1;
        if bound[k] {
            if log.len() == 0 {
                None
            } else {
                match replay(name, passthrough, acc0, inputs, bound.drop_last(), log.drop_last()) {
                    Some((o, a)) => if call_fits(log.last(), name, k, a, inputs[k]) {
                        Some((
                            o + opt_seq(step_out(name, passthrough, inputs[k], log.last().result)),
                            step_acc(name, a, log.last().result),
                        ))
                    } else {
                        None
                    },
                    None => None,
                }
            }
        } else {
            match replay(name, passthrough, acc0, inputs, bound.drop_last(), log) {
                Some((o, a)) => Some((o + opt_seq(step_out(name, passthrough, inputs[k], None)), a)),
                None => None,
            }
        }
    }
}

/// The whole output of a run: what each token emits, then a fold's final
/// accumulator.
pub open spec fn run_output(name: FunctionName, passthrough: bool, acc0: Value, inputs: Seq<Value>, bound: Seq<bool>, log: Seq<Evaluation>) -> Option<Seq<Value>> {
    match replay(name, passthrough, acc0, inputs, bound, log) {
        Some((o, a)) => Some(o + if name == FunctionName::Fold { seq![a] } else { seq![] }),
        None => None,
    }
}

proof fn lemma_identity_replay(passthrough: bool, acc0: Value, inputs: Seq<Value>, bound: Seq<bool>, log: Seq<Evaluation>)
    requires
        bound.len() <= inputs.len(),
        replay(FunctionName::MapEach, passthrough, acc0, inputs, bound, log) is Some,
        forall|j: int| 0 <= j < log.len() ==> (#[trigger] log[j]).result == log[j].slots[0],
        forall|k: int| 0 <= k < bound.len() ==> #[trigger] bound[k] || passthrough,
    ensures
        replay(FunctionName::MapEach, passthrough, acc0, inputs, bound, log)->Some_0.0 == inputs.subrange(0, bound.len() as int),
    decreases bound.len(),
{
    if bound.len() > 0 {
        let k = bound.len() - 1;
        let lg = if bound[k] { log.drop_last() } else { log };
        assert forall|j: int| 0 <= j < lg.len() implies (#[trigger] lg[j]).result == lg[j].slots[0] by {
            assert(lg[j] == log[j]);
        }
        assert forall|i: int| 0 <= i < bound.drop_last().len() implies #[trigger] bound.drop_last()[i] || passthrough by {
            assert(bound.drop_last()[i] == bound[i]);
        }
        lemma_identity_replay(passthrough, acc0, inputs, bound.drop_last(), lg);
        if bound[k] {
            assert(log.last() == log[log.len() - 1]);
        }
        assert(inputs.subrange(0, bound.len() as int) =~= inputs.subrange(0, k) + seq![inputs[k]]);
    }
}

/// Map identity: in a `map` run where every evaluation returned the value
/// of its first slot, and each token was either evaluated or passed through,
/// the output is the tokens themselves, in order.
pub proof fn lemma_map_identity(passthrough: bool, acc0: Value, inputs: Seq<Value>, bound: Seq<bool>, log: Seq<Evaluation>)
    requires
        bound.len() == inputs.len(),
        run_output(FunctionName::MapEach, passthrough, acc0, inputs, bound, log) is Some,
        forall|j: int| 0 <= j < log.len() ==> (#[trigger] log[j]).result == log[j].slots[0],
        forall|k: int| 0 <= k < bound.len() ==> #[trigger] bound[k] || passthrough,
    ensures
        run_output(FunctionName::MapEach, passthrough, acc0, inputs, bound, log) == Some(inputs),
{
    lemma_identity_replay(passthrough, acc0, inputs, bound, log);
    assert(inputs.subrange(0, inputs.len() as int) =~= inputs);
    let o = replay(FunctionName::MapEach, passthrough, acc0, inputs, bound, log)->Some_0.0;
    assert(o + seq![] =~= o);
}

proof fn lemma_failing_replay(name: FunctionName, passthrough: bool, acc0: Value, inputs: Seq<Value>, bound: Seq<bool>, log: Seq<Evaluation>)
    requires
        name != FunctionName::Fold,
        bound.len() <= inputs.len(),
        replay(name, passthrough, acc0, inputs, bound, log) is Some,
        forall|j: int| 0 <= j < log.len() ==> (#[trigger] log[j]).result is None,
    ensures
        replay(name, passthrough, acc0, inputs, bound, log)->Some_0.0 == (if passthrough { inputs.subrange(0, bound.len() as int) } else { seq![] }),
    decreases bound.len(),
{
    if bound.len() > 0 {
        let k = bound.len() - 1;
        let lg = if bound[k] { log.drop_last() } else { log };
        assert forall|j: int| 0 <= j < lg.len() implies (#[trigger] lg[j]).result is None by {
            assert(lg[j] == log[j]);
        }
        lemma_failing_replay(name, passthrough, acc0, inputs, bound.drop_last(), lg);
        if bound[k] {
            assert(log.last() == log[log.len() - 1]);
        }
        assert(inputs.subrange(0, bound.len() as int) =~= inputs.subrange(0, k) + seq![inputs[k]]);
        assert(Seq::<Value>::empty() + opt_seq(None) =~= Seq::<Value>::empty());
    }
}

/// Passthrough: in a `map` or `map-indexed` run where every evaluation
/// failed, the output is every token unchanged, or nothing at all when
/// passthrough is off.
pub proof fn lemma_passthrough(name: FunctionName, passthrough: bool, acc0: Value, inputs: Seq<Value>, bound: Seq<bool>, log: Seq<Evaluation>)
    requires
        name != FunctionName::Fold,
        bound.len() == inputs.len(),
        run_output(name, passthrough, acc0, inputs, bound, log) is Some,
        forall|j: int| 0 <= j < log.len() ==> (#[trigger] log[j]).result is None,
    ensures
        run_output(name, passthrough, acc0, inputs, bound, log) == Some(if passthrough { inputs } else { seq![] }),
{
    lemma_failing_replay(name, passthrough, acc0, inputs, bound, log);
    assert(inputs.subrange(0, inputs.len() as int) =~= inputs);
    let o = replay(name, passthrough, acc0, inputs, bound, log)->Some_0.0;
    assert(o + seq![] =~= o);
}

/// Indexed ordering: in a `map-indexed` run where every token was
/// evaluated, the `j`-th evaluation saw index `j` in slot 0 and token `j`
/// in slot 1.
pub proof fn lemma_indexed_ordering(passthrough: bool, acc0: Value, inputs: Seq<Value>, bound: Seq<bool>, log: Seq<Evaluation>)
    requires
        bound.len() <= inputs.len(),
        replay(FunctionName::MapIndexed, passthrough, acc0, inputs, bound, log) is Some,
        forall|k: int| 0 <= k < bound.len() ==> #[trigger] bound[k],
    ensures
        log.len() == bound.len(),
        forall|j: int| 0 <= j < log.len() ==> (#[trigger] log[j]).slots[0] == Some(Value::Number(j))
            && log[j].slots[1] == Some(inputs[j]),
    decreases bound.len(),
{
    if bound.len() > 0 {
        let k = bound.len() - 1;
        assert forall|i: int| 0 <= i < bound.drop_last().len() implies #[trigger] bound.drop_last()[i] by {
            assert(bound.drop_last()[i] == bound[i]);
        }
        lemma_indexed_ordering(passthrough, acc0, inputs, bound.drop_last(), log.drop_last());
        assert forall|j: int| 0 <= j < log.len() implies (#[trigger] log[j]).slots[0] == Some(Value::Number(j))
            && log[j].slots[1] == Some(inputs[j]) by {
            if j < k {
                assert(log[j] == log.drop_last()[j]);
            } else {
                assert(log[j] == log.last());
            }
        }
    }
}

/// One evaluation per token: when every token's slots were bound, a run
/// made exactly one evaluation for each token, in order, and each fits its
/// token.
pub proof fn lemma_one_evaluation_per_token(name: FunctionName, passthrough: bool, acc0: Value, inputs: Seq<Value>, bound: Seq<bool>, log: Seq<Evaluation>)
    requires
        replay(name, passthrough, acc0, inputs, bound, log) is Some,
        forall|k: int| 0 <= k < bound.len() ==> #[trigger] bound[k],
    ensures
        log.len() == bound.len(),
        forall|j: int| 0 <= j < log.len() ==> (#[trigger] log[j]).id == DECLARED_NAME@ && log[j].count
            == arity(name),
    decreases bound.len(),
{
    if bound.len() > 0 {
        assert forall|i: int| 0 <= i < bound.drop_last().len() implies #[trigger] bound.drop_last()[i] by {
            assert(bound.drop_last()[i] == bound[i]);
        }
        lemma_one_evaluation_per_token(name, passthrough, acc0, inputs, bound.drop_last(), log.drop_last());
        assert forall|j: int| 0 <= j < log.len() implies (#[trigger] log[j]).id == DECLARED_NAME@
            && log[j].count == arity(name) by {
            if j < log.len() - 1 {
                assert(log[j] == log.drop_last()[j]);
            }
        }
    }
}

proof fn lemma_replay_extend(name: FunctionName, passthrough: bool, acc0: Value, inputs: Seq<Value>, bound: Seq<bool>, log: Seq<Evaluation>, b: bool, e: Evaluation)
    ensures
        replay(name, passthrough, acc0, inputs, bound.push(b), if b { log.push(e) } else { log }) == (
        if b {
            match replay(name, passthrough, acc0, inputs, bound, log) {
                Some((o, a)) => if call_fits(e, name, bound.len() as int, a, inputs[bound.len() as int]) {
                    Some((o + opt_seq(step_out(name, passthrough, inputs[bound.len() as int], e.result)), step_acc(name, a, e.result)))
                } else {
                    None
                },
                None => None,
            }
        } else {
            match replay(name, passthrough, acc0, inputs, bound, log) {
                Some((o, a)) => Some((o + opt_seq(step_out(name, passthrough, inputs[bound.len() as int], None)), a)),
                None => None,
            }
        }),
{
    assert(bound.push(b).drop_last() =~= bound);
    assert(log.push(e).drop_last() =~= log);
}

impl Function {
    /// Arguments for the callable: see `slot_values`.
    pub fn bindings(&self, index: usize, acc: &Argument, input: &Argument) -> (r: Vec<Argument>)
        requires
            index <= i64::MAX,
        ensures
            values(r@) == slot_values(self.spec_name(), index as int, acc@, input@),
            r@.len() == arity(self.spec_name()),
    {
        let mut r: Vec<Argument> = Vec::new();
        match self {
            Function::MapEach { .. } => {
                r.push(input.duplicate());
            },
            Function::MapIndexed { .. } => {
                r.push(Argument::Number(index as i64));
                r.push(input.duplicate());
            },
            Function::Fold { .. } => {
                r.push(acc.duplicate());
                r.push(input.duplicate());
            },
        }
        assert(values(r@) =~= slot_values(self.spec_name(), index as int, acc@, input@));
        r
    }

    /// The accumulator a run starts from: a fold's initial value, else zero.
    pub open spec fn initial_value(&self) -> Value {
        match self {
            Function::Fold { value, .. } => value@,
            _ => Value::Number(0),
        }
    }

    /// The accumulator a run starts from: a fold's initial value, else zero.
    pub fn initial_accumulator(&self) -> (r: Argument)
        ensures
            r@ == self.initial_value(),
    {
        match self {
            Function::Fold { value, .. } => value.duplicate(),
            _ => Argument::Number(0),
        }
    }
}

/// Applies the output and passthrough policy to one token's result: returns
/// what to emit and updates a fold's accumulator.
pub fn outcome(name: FunctionName, passthrough: bool, input: Argument, result: Result<Box<Argument>, InterpreterError>, acc: &mut Argument) -> (r: Option<Argument>)
    ensures
        r matches Some(a) ==> step_out(name, passthrough, input@, result_value(result)) == Some(a@),
        r is None ==> step_out(name, passthrough, input@, result_value(result)) is None,
        final(acc)@ == step_acc(name, old(acc)@, result_value(result)),
{
    match result {
        Ok(value) => {
            if name == FunctionName::Fold {
                *acc = *value;
                None
            } else {
                Some(*value)
            }
        },
        Err(_) => {
            if passthrough {
                Some(input)
            } else {
                None
            }
        },
    }
}

/// What a run emits once the tokens are exhausted: a fold's accumulator.
pub fn final_output(function: &Function, acc: Argument) -> (r: Option<Argument>)
    ensures
        function.spec_name() == FunctionName::Fold ==> (r matches Some(a) && a@ == acc@),
        function.spec_name() != FunctionName::Fold ==> r is None,
{
    if function.name() == FunctionName::Fold {
        Some(acc)
    } else {
        None
    }
}

/// Declares the operation's callable under `DECLARED_NAME`, with one slot
/// for `map` and two otherwise.
pub fn declare_function<I: Interpreter>(function: &Function, interpreter: &mut I) -> (r: Result<(), InterpreterError>)
    requires
        old(interpreter).inv(),
    ensures
        final(interpreter).inv(),
        final(interpreter).slots() == old(interpreter).slots(),
        final(interpreter).evaluations() == old(interpreter).evaluations(),
        final(interpreter).binds_always() == old(interpreter).binds_always(),
        final(interpreter).declare_outcomes() == old(interpreter).declare_outcomes().push(r is Ok),
        r is Ok ==> final(interpreter).declared() == Some(
            Declaration { id: DECLARED_NAME@, arity: arity(function.spec_name()), code: function.spec_code() },
        ),
        r is Err ==> final(interpreter).declared() == old(interpreter).declared(),
{
    let n: usize = if function.name() == FunctionName::MapEach { 1 } else { 2 };
    match function {
        Function::MapEach { code } => interpreter.declare(DECLARED_NAME, n, code.as_str()),
        Function::MapIndexed { code } => interpreter.declare(DECLARED_NAME, n, code.as_str()),
        Function::Fold { code, .. } => interpreter.declare(DECLARED_NAME, n, code.as_str()),
    }
}

/// What one token's handling gives: the emitted value and the new
/// accumulator for the callable's result `res`.
pub open spec fn token_done(name: FunctionName, passthrough: bool, input: Value, res: Option<Value>, r: Option<Argument>, acc0: Value, acc1: Value) -> bool {
    &&& (r matches Some(a) ==> step_out(name, passthrough, input, res) == Some(a@))
    &&& (r is None ==> step_out(name, passthrough, input, res) is None)
    &&& acc1 == step_acc(name, acc0, res)
}

/// Runs the declared callable on one token. The slots are bound in order
/// and the callable is evaluated only when every binding succeeded; a failed
/// binding counts as a failed call. Either no evaluation was made and the
/// token counts as failed, or exactly one was made, with the token's slot
/// values, and its result decides.
pub fn process_token<I: Interpreter>(function: &Function, passthrough: bool, interpreter: &mut I, index: usize, acc: &mut Argument, token: String) -> (r: Option<Argument>)
    requires
        old(interpreter).inv(),
        old(interpreter).slots().len() == SLOT_LIMIT,
        index <= i64::MAX,
    ensures
        final(interpreter).inv(),
        final(interpreter).slots().len() == SLOT_LIMIT,
        final(interpreter).declared() == old(interpreter).declared(),
        final(interpreter).declare_outcomes() == old(interpreter).declare_outcomes(),
        final(interpreter).binds_always() == old(interpreter).binds_always(),
        ({
            let e0 = old(interpreter).evaluations();
            let e1 = final(interpreter).evaluations();
            let name = function.spec_name();
            let input = Value::Text(token@);
            ||| (e1 == e0 && !old(interpreter).binds_always() && token_done(name, passthrough, input, None, r, old(acc)@, final(acc)@))
            ||| (e1 == e0.push(e1.last()) && call_fits(e1.last(), name, index as int, old(acc)@, input)
                && token_done(name, passthrough, input, e1.last().result, r, old(acc)@, final(acc)@))
        }),
{
    let input = Argument::String(token);
    let args = function.bindings(index, acc, &input);
    let ghost vals = values(args@);
    let ghost e0 = interpreter.evaluations();
    let mut k: usize = 0;
    let mut failure: Option<InterpreterError> = None;
    while k < args.len()
        invariant
            interpreter.inv(),
            interpreter.slots().len() == SLOT_LIMIT,
            interpreter.declared() == old(interpreter).declared(),
            interpreter.declare_outcomes() == old(interpreter).declare_outcomes(),
            interpreter.binds_always() == old(interpreter).binds_always(),
            interpreter.evaluations() == e0,
            e0 == old(interpreter).evaluations(),
            vals == values(args@),
            k <= args@.len(),
            args@.len() <= 2,
            failure is None ==> forall|i: int| 0 <= i < k ==> interpreter.slots()[i] == Some(vals[i]),
            interpreter.binds_always() ==> failure is None,
        decreases args@.len() - k,
    {
        match interpreter.pass_argument(k, &args[k]) {
            Ok(()) => {},
            Err(e) => {
                failure = Some(e);
            },
        }
        k = k + 1;
    }
    let result = match failure {
        Some(e) => Err(e),
        None => interpreter.evaluate(DECLARED_NAME, args.len()),
    };
    proof {
        reveal_strlit("foo");
        if failure is None {
            let e1 = interpreter.evaluations();
            assert(e1.last() == e1[e1.len() - 1]);
            assert(e1 =~= e0.push(e1.last()));
        }
    }
    outcome(function.name(), passthrough, input, result, acc)
}

/// Runs a whole operation over `tokens`. It declares the callable first; a
/// failed declaration is returned before any token is bound or evaluated.
/// Otherwise every token is handled in order, and the output is what
/// `run_output` gives for the evaluations this run added, with `bound`
/// telling which tokens were evaluated (all of them when bindings never fail).
pub fn process_function<I: Interpreter>(args: &Arguments, tokens: &Vec<String>, interpreter: &mut I) -> (r: Result<Vec<Argument>, InterpreterError>)
    requires
        old(interpreter).inv(),
        old(interpreter).slots().len() == SLOT_LIMIT,
        tokens@.len() <= i64::MAX,
    ensures
        final(interpreter).inv(),
        final(interpreter).slots().len() == SLOT_LIMIT,
        final(interpreter).declare_outcomes() == old(interpreter).declare_outcomes().push(r is Ok),
        r is Err ==> final(interpreter).slots() == old(interpreter).slots()
            && final(interpreter).evaluations() == old(interpreter).evaluations()
            && final(interpreter).declared() == old(interpreter).declared(),
        r is Ok ==> final(interpreter).declared() == Some(
            Declaration {
                id: DECLARED_NAME@,
                arity: arity(args.function.spec_name()),
                code: args.function.spec_code(),
            },
        ),
        r is Ok ==> final(interpreter).evaluations().subrange(0, old(interpreter).evaluations().len() as int)
            == old(interpreter).evaluations(),
        r matches Ok(out) ==> exists|bound: Seq<bool>| #![auto]
            bound.len() == tokens@.len()
            && (old(interpreter).binds_always() ==> forall|k: int| 0 <= k < bound.len() ==> bound[k])
            && run_output(
                args.function.spec_name(),
                args.passtrough_on_error,
                args.function.initial_value(),
                token_values(tokens@),
                bound,
                final(interpreter).evaluations().skip(old(interpreter).evaluations().len() as int),
            ) == Some(values(out@)),
{
    match declare_function(&args.function, interpreter) {
        Ok(()) => {},
        Err(e) => return Err(e),
    }
    let name = args.function.name();
    let ghost p = args.passtrough_on_error;
    let ghost inputs = token_values(tokens@);
    let ghost n0 = old(interpreter).evaluations().len();
    let ghost e_start = old(interpreter).evaluations();
    let mut acc = args.function.initial_accumulator();
    let ghost acc0 = acc@;
    let ghost mut bound: Seq<bool> = seq![];
    let mut out: Vec<Argument> = Vec::new();
    let mut k: usize = 0;
    while k < tokens.len()
        invariant
            interpreter.inv(),
            interpreter.slots().len() == SLOT_LIMIT,
            interpreter.binds_always() == old(interpreter).binds_always(),
            interpreter.declare_outcomes() == old(interpreter).declare_outcomes().push(true),
            interpreter.declared() == Some(
                Declaration {
                    id: DECLARED_NAME@,
                    arity: arity(args.function.spec_name()),
                    code: args.function.spec_code(),
                },
            ),
            k <= tokens@.len() <= i64::MAX,
            name == args.function.spec_name(),
            p == args.passtrough_on_error,
            inputs == token_values(tokens@),
            acc0 == args.function.initial_value(),
            e_start == old(interpreter).evaluations(),
            n0 == e_start.len(),
            interpreter.evaluations().len() >= n0,
            interpreter.evaluations().subrange(0, n0 as int) == e_start,
            bound.len() == k,
            old(interpreter).binds_always() ==> forall|i: int| 0 <= i < bound.len() ==> bound[i],
            replay(name, p, acc0, inputs, bound, interpreter.evaluations().skip(n0 as int)) == Some((values(out@), acc@)),
        decreases tokens@.len() - k,
    {
        let token = tokens[k].clone();
        let ghost before = out@;
        let ghost acc_before = acc@;
        let ghost log_before = interpreter.evaluations();
        let emitted = process_token(&args.function, args.passtrough_on_error, interpreter, k, &mut acc, token);
        match emitted {
            Some(a) => out.push(a),
            None => {},
        }
        proof {
            let log_after = interpreter.evaluations();
            let b = log_after != log_before;
            let lb = log_before.skip(n0 as int);
            assert(inputs[k as int] == Value::Text(token@));
            if b {
                let e = log_after.last();
                assert(log_after == log_before.push(e));
                assert(log_after.skip(n0 as int) =~= lb.push(e));
                assert(log_after.subrange(0, n0 as int) =~= log_before.subrange(0, n0 as int));
                lemma_replay_extend(name, p, acc0, inputs, bound, lb, true, e);
            } else {
                lemma_replay_extend(name, p, acc0, inputs, bound, lb, false, Evaluation { id: seq![], count: 0, slots: seq![], result: None });
            }
            assert(values(out@) =~= values(before) + opt_seq(step_out(name, p, inputs[k as int], if b { log_after.last().result } else { None })));
            bound = bound.push(b);
        }
        k = k + 1;
    }
    let ghost o = values(out@);
    let ghost acc_end = acc@;
    match final_output(&args.function, acc) {
        Some(a) => out.push(a),
        None => {},
    }
    proof {
        assert(values(out@) =~= o + if name == FunctionName::Fold { seq![acc_end] } else { seq![] });
        assert(run_output(name, p, acc0, inputs, bound, interpreter.evaluations().skip(n0 as int)) == Some(values(out@)));
        assert(bound.len() == tokens@.len());
    }
    Ok(out)
}

} // verus!
