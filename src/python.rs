use vstd::prelude::*;
use vstd::string::{StrSliceExecFns, StringExecFns};
use crate::interpreters::{
    argument_list, argument_list_text, call_expression, call_text, find_unbound, first_unbound,
    opt_text, read_back, result_of, result_value, slot_letter, slot_names, Argument, Declaration,
    Environment, Evaluation, ImportNamespace, Interpreter, InterpreterError, Value, SLOT_LIMIT,
};
use crate::text::{free_of_nul, has_no_nul, push_char};
use cpython::{GILGuard, PyDict, PyObject, Python as PyToken};

verus! {

#[verifier::external_type_specification]
#[verifier::external_body]
pub struct ExGILGuard(GILGuard);

#[verifier::external_type_specification]
#[verifier::external_body]
pub struct ExPyDict(PyDict);

#[verifier::external_type_specification]
#[verifier::external_body]
pub struct ExPyObject(PyObject);

/// Relies on cpython::Python::acquire_gil: holds the interpreter lock,
/// starting the Python runtime if needed.
#[verifier::external_body]
fn acquire_gil() -> GILGuard {
    PyToken::acquire_gil()
}

/// Relies on cpython::PyDict::new: a new empty dictionary.
#[verifier::external_body]
fn new_dict(gil: &GILGuard) -> PyDict {
    PyDict::new(gil.python())
}

/// Relies on cpython::Python::run: executes statements in the globals of
/// `__main__`; an exception comes back as its debug text. The code becomes a
/// C string, so it may hold no NUL.
#[verifier::external_body]
fn run_code(gil: &GILGuard, code: &str) -> Result<(), String>
    requires
        free_of_nul(code@),
{
    match gil.python().run(code, None, None) {
        Ok(()) => Ok(()),
        Err(e) => Err(format!("{:?}", e)),
    }
}

/// Relies on cpython::Python::eval: evaluates an expression with `locals` as
/// its local namespace; an exception comes back as its debug text. The code
/// may hold no NUL, as above.
#[verifier::external_body]
fn eval_code(gil: &GILGuard, locals: &PyDict, code: &str) -> Result<PyObject, String>
    requires
        free_of_nul(code@),
{
    match gil.python().eval(code, None, Some(locals)) {
        Ok(o) => Ok(o),
        Err(e) => Err(format!("{:?}", e)),
    }
}

/// Relies on cpython::PyObject::extract to a string: `None` unless the
/// object is a Python string.
#[verifier::external_body]
fn extract_string(gil: &GILGuard, object: &PyObject) -> Option<String> {
    object.extract::<String>(gil.python()).ok()
}

/// Relies on cpython::PyObject::extract to a 32-bit integer: `None` unless
/// the object is an integer in range.
#[verifier::external_body]
fn extract_i32(gil: &GILGuard, object: &PyObject) -> Option<i32> {
    object.extract::<i32>(gil.python()).ok()
}

/// Relies on cpython::PyDict::set_item with a string value.
#[verifier::external_body]
fn set_text(gil: &GILGuard, dict: &PyDict, name: &str, value: &str) -> Result<(), String> {
    match dict.set_item(gil.python(), name, value) {
        Ok(()) => Ok(()),
        Err(e) => Err(format!("{:?}", e)),
    }
}

/// Relies on cpython::PyDict::set_item with a 64-bit integer value.
#[verifier::external_body]
fn set_number(gil: &GILGuard, dict: &PyDict, name: &str, value: i64) -> Result<(), String> {
    match dict.set_item(gil.python(), name, value) {
        Ok(()) => Ok(()),
        Err(e) => Err(format!("{:?}", e)),
    }
}

/// `s` with every line after the first indented by two spaces.
pub open spec fn indented(s: Seq<char>) -> Seq<char>
    decreases s.len(),
{
    if s.len() == 0 {
        seq![]
    } else {
        indented(s.drop_last()) + if s.last() == '\n' {
            seq!['\n', ' ', ' ']
        } else {
            seq![s.last()]
        }
    }
}

/// A `def` of `id` over `n` slots whose body is `inline`.
pub open spec fn python_function(id: Seq<char>, n: nat, inline: Seq<char>) -> Seq<char> {
    "def "@ + id + "("@ + argument_list_text(n) + "):\n  "@ + indented(inline)
}

/// A lambda bound to `id`, from code written `\<expression>`.
pub open spec fn python_lambda(id: Seq<char>, n: nat, inline: Seq<char>) -> Seq<char> {
    id + " = lambda "@ + argument_list_text(n) + ": "@ + inline.skip(1)
}

/// The declaration of `id`: a lambda when the code starts with a backslash,
/// else a `def`.
pub open spec fn python_declaration(id: Seq<char>, n: nat, inline: Seq<char>) -> Seq<char> {
    if inline.len() > 0 && inline[0] == '\\' {
        python_lambda(id, n, inline)
    } else {
        python_function(id, n, inline)
    }
}

/// The body that forwards to `id` on the first `n` slots.
pub open spec fn python_call(id: Seq<char>, n: nat) -> Seq<char> {
    "return "@ + id + "("@ + argument_list_text(n) + ")"@
}

/// The statement that imports `feature`.
pub open spec fn python_import(feature: Seq<char>, ns: ImportNamespace) -> Seq<char> {
    match ns {
        ImportNamespace::Current => "from "@ + feature + " import *"@,
        ImportNamespace::Separate => "import "@ + feature,
    }
}

/// A backend on the embedded Python runtime. Slot `i` is the local named by
/// the `i`-th letter from `a` in the namespace that calls are evaluated in.
pub struct Python {
    gil: GILGuard,
    env: Environment,
    arguments: PyDict,
    bound: Vec<bool>,
    values: Ghost<Seq<Option<Value>>>,
    declaration: Ghost<Option<Declaration>>,
    outcomes: Ghost<Seq<bool>>,
    log: Ghost<Seq<Evaluation>>,
    trace: Vec<String>,
}

impl Python {
    /// A backend holding the interpreter lock, with no slot bound.
    pub fn new(env: Environment) -> (r: Python)
        ensures
            r.inv(),
            r.slots() == Seq::new(SLOT_LIMIT as nat, |i: int| None::<Value>),
            r.traced().len() == 0,
            r.declared() is None,
            r.evaluations().len() == 0,
            r.environment() == env,
    {
        let gil = acquire_gil();
        let arguments = new_dict(&gil);
        let mut bound: Vec<bool> = Vec::new();
        let mut k: usize = 0;
        while k < SLOT_LIMIT
            invariant
                k <= SLOT_LIMIT,
                bound@ == Seq::new(k as nat, |i: int| false),
            decreases SLOT_LIMIT - k,
        {
            bound.push(false);
            k = k + 1;
            assert(bound@ =~= Seq::new(k as nat, |i: int| false));
        }
        Python {
            gil,
            env,
            arguments,
            bound,
            values: Ghost(Seq::new(SLOT_LIMIT as nat, |i: int| None::<Value>)),
            declaration: Ghost(None),
            outcomes: Ghost(Seq::empty()),
            log: Ghost(Seq::empty()),
            trace: Vec::new(),
        }
    }

    /// The code run so far with tracing on, not yet taken.
    pub closed spec fn traced(&self) -> Seq<Seq<char>> {
        self.trace@.map_values(|s: String| s@)
    }

    /// Hands out the traced code and forgets it.
    pub fn take_trace(&mut self) -> (r: Vec<String>)
        requires
            old(self).inv(),
        ensures
            final(self).inv(),
            final(self).same_model(old(self)),
            r@.map_values(|s: String| s@) == old(self).traced(),
            final(self).traced().len() == 0,
    {
        let mut r: Vec<String> = Vec::new();
        r.append(&mut self.trace);
        assert(self.trace@.map_values(|s: String| s@) =~= Seq::<Seq<char>>::empty());
        r
    }

    /// The parameter list of a callable of `n` slots.
    pub fn args_list(&self, n: usize) -> (r: String)
        requires
            n <= SLOT_LIMIT,
        ensures
            r@ == argument_list_text(n as nat),
    {
        argument_list(n)
    }

    /// The local names of the slots, in order.
    pub fn args_names(&self) -> (r: [&'static str; 6])
        ensures
            forall|i: int| 0 <= i < 6 ==> (#[trigger] r@[i])@ == seq![slot_letter(i)],
    {
        slot_names()
    }

    /// A `def` of `id` over `args` slots whose body is `inline`.
    pub fn construct_function(&self, id: &str, args: usize, inline: &str) -> (r: String)
        requires
            args <= SLOT_LIMIT,
        ensures
            r@ == python_function(id@, args as nat, inline@),
    {
        let mut code = String::from_str("def ");
        code.append(id);
        code.append("(");
        let list = self.args_list(args);
        code.append(list.as_str());
        code.append("):\n  ");
        let ghost start = code@;
        let n = inline.unicode_len();
        let mut i: usize = 0;
        while i < n
            invariant
                n == inline@.len(),
                i <= n,
                code@ == start + indented(inline@.subrange(0, i as int)),
            decreases n - i,
        {
            let c = inline.get_char(i);
            if c == '\n' {
                push_char(&mut code, '\n');
                push_char(&mut code, ' ');
                push_char(&mut code, ' ');
            } else {
                push_char(&mut code, c);
            }
            proof {
                assert(inline@.subrange(0, i + 1).drop_last() =~= inline@.subrange(0, i as int));
            }
            i = i + 1;
            assert(code@ =~= start + indented(inline@.subrange(0, i as int)));
        }
        assert(inline@.subrange(0, n as int) =~= inline@);
        assert(code@ =~= python_function(id@, args as nat, inline@));
        code
    }

    /// A lambda bound to `id`, from code written `\<expression>`.
    pub fn construct_lambda(&self, id: &str, args: usize, inline: &str) -> (r: String)
        requires
            args <= SLOT_LIMIT,
            inline@.len() > 0,
        ensures
            r@ == python_lambda(id@, args as nat, inline@),
    {
        let mut code = String::from_str(id);
        code.append(" = lambda ");
        let list = self.args_list(args);
        code.append(list.as_str());
        code.append(": ");
        let n = inline.unicode_len();
        code.append(inline.substring_char(1, n));
        assert(inline@.subrange(1, n as int) =~= inline@.skip(1));
        assert(code@ =~= python_lambda(id@, args as nat, inline@));
        code
    }

    /// The declaration of `id`: a lambda when the code starts with a
    /// backslash, else a `def`.
    pub fn construct_declaration(&self, id: &str, args: usize, inline: &str) -> (r: String)
        requires
            args <= SLOT_LIMIT,
        ensures
            r@ == python_declaration(id@, args as nat, inline@),
    {
        if inline.unicode_len() > 0 && inline.get_char(0) == '\\' {
            self.construct_lambda(id, args, inline)
        } else {
            self.construct_function(id, args, inline)
        }
    }

    /// The body that forwards to `id` on the first `args` slots.
    pub fn construct_call(&self, id: &str, args: usize) -> (r: String)
        requires
            args <= SLOT_LIMIT,
        ensures
            r@ == python_call(id@, args as nat),
    {
        let mut code = String::from_str("return ");
        code.append(id);
        code.append("(");
        let list = self.args_list(args);
        code.append(list.as_str());
        code.append(")");
        assert(code@ =~= python_call(id@, args as nat));
        code
    }

    /// Two states agree on the slots, declaration, evaluations and environment.
    pub closed spec fn same_model(&self, o: &Python) -> bool {
        &&& self.bound@ == o.bound@
        &&& self.values == o.values
        &&& self.declaration == o.declaration
        &&& self.outcomes == o.outcomes
        &&& self.log == o.log
        &&& self.env == o.env
    }

    /// The expression that calls `id` on its first `args` slots.
    pub fn construct_evaluation(&self, id: &str, args: usize) -> (r: String)
        requires
            args <= SLOT_LIMIT,
        ensures
            r@ == call_text(id@, args as nat),
    {
        call_expression(id, args)
    }

    /// Runs statements, recording them first when tracing is on.
    fn run(&mut self, code: &str) -> (r: Result<(), InterpreterError>)
        ensures
            final(self).same_model(old(self)),
            final(self).traced() == (if old(self).env.declaration_debug {
                old(self).traced().push(code@)
            } else {
                old(self).traced()
            }),
            !free_of_nul(code@) <==> r == Err::<(), InterpreterError>(InterpreterError::NulInCode),
            r matches Err(e) ==> (e is NulInCode || e is Backend),
    {
        if self.env.declaration_debug {
            self.trace.push(String::from_str(code));
            assert(self.trace@.map_values(|s: String| s@) =~= old(self).trace@.map_values(|s: String| s@).push(code@));
        }
        if !has_no_nul(code) {
            return Err(InterpreterError::NulInCode);
        }
        match run_code(&self.gil, code) {
            Ok(()) => Ok(()),
            Err(e) => Err(InterpreterError::Backend(e)),
        }
    }

    fn evaluate_call(&mut self, id: &str, args_count: usize) -> (r: Result<Box<Argument>, InterpreterError>)
        requires
            old(self).inv(),
        ensures
            final(self).same_model(old(self)),
            final(self).trace == old(self).trace,
            args_count > SLOT_LIMIT ==> r == Err::<Box<Argument>, InterpreterError>(
                InterpreterError::SlotOutOfRange(args_count),
            ),
            r matches Err(InterpreterError::SlotOutOfRange(m)) ==> args_count > SLOT_LIMIT && m
                == args_count,
            args_count <= SLOT_LIMIT && first_unbound(old(self).values@, args_count as nat) >= 0
                ==> r == Err::<Box<Argument>, InterpreterError>(
                InterpreterError::UnboundSlot(
                    first_unbound(old(self).values@, args_count as nat) as usize,
                ),
            ),
            r matches Err(InterpreterError::UnboundSlot(k)) ==> args_count <= SLOT_LIMIT && k
                == first_unbound(old(self).values@, args_count as nat),
    {
        if args_count > SLOT_LIMIT {
            return Err(InterpreterError::SlotOutOfRange(args_count));
        }
        match find_unbound(&self.bound, args_count, Ghost(self.values@)) {
            Some(k) => return Err(InterpreterError::UnboundSlot(k)),
            None => {},
        }
        let code = self.construct_evaluation(id, args_count);
        if !has_no_nul(code.as_str()) {
            return Err(InterpreterError::NulInCode);
        }
        let object = match eval_code(&self.gil, &self.arguments, code.as_str()) {
            Ok(o) => o,
            Err(e) => return Err(InterpreterError::Backend(e)),
        };
        let text = extract_string(&self.gil, &object);
        let number = match text {
            Some(_) => None,
            None => extract_i32(&self.gil, &object),
        };
        match result_of(text, number) {
            Ok(v) => Ok(Box::new(v)),
            Err(e) => Err(e),
        }
    }

    /// Declares `<identifier>_wrapped` from the code, and `identifier` as a
    /// function that forwards to it. Code holding a NUL is refused as
    /// `NulInCode`.
    fn declare_source(&mut self, identifier: &str, number_of_arguments: usize, inline_code: &str) -> (r: Result<(), InterpreterError>)
        ensures
            final(self).bound@ == old(self).bound@,
            final(self).values == old(self).values,
            final(self).log == old(self).log,
            final(self).env == old(self).env,
            final(self).outcomes == old(self).outcomes,
            number_of_arguments > SLOT_LIMIT ==> r == Err::<(), InterpreterError>(
                InterpreterError::SlotOutOfRange(number_of_arguments),
            ),
            r matches Err(InterpreterError::SlotOutOfRange(m)) ==> number_of_arguments > SLOT_LIMIT
                && m == number_of_arguments,
            r is Ok ==> final(self).declaration@ == Some(
                Declaration { id: identifier@, arity: number_of_arguments as nat, code: inline_code@ },
            ),
            r is Err ==> final(self).declaration == old(self).declaration,
    {
        if number_of_arguments > SLOT_LIMIT {
            return Err(InterpreterError::SlotOutOfRange(number_of_arguments));
        }
        let mut wrapper_id = String::from_str(identifier);
        wrapper_id.append("_wrapped");
        let code = self.construct_declaration(wrapper_id.as_str(), number_of_arguments, inline_code);
        let call = self.construct_call(wrapper_id.as_str(), number_of_arguments);
        let wrapper_code = self.construct_declaration(identifier, number_of_arguments, call.as_str());
        match self.run(wrapper_code.as_str()) {
            Ok(()) => {},
            Err(e) => return Err(e),
        }
        match self.run(code.as_str()) {
            Ok(()) => {
                self.declaration = Ghost(Some(Declaration {
                    id: identifier@,
                    arity: number_of_arguments as nat,
                    code: inline_code@,
                }));
                Ok(())
            },
            Err(e) => Err(e),
        }
    }
}

impl Interpreter for Python {
    closed spec fn slots(&self) -> Seq<Option<Value>> {
        self.values@
    }

    closed spec fn inv(&self) -> bool {
        &&& self.bound@.len() == SLOT_LIMIT
        &&& self.values@.len() == SLOT_LIMIT
        &&& forall|i: int| 0 <= i < SLOT_LIMIT ==> (self.bound@[i] <==> self.values@[i] is Some)
    }

    closed spec fn declared(&self) -> Option<Declaration> {
        self.declaration@
    }

    closed spec fn declare_outcomes(&self) -> Seq<bool> {
        self.outcomes@
    }

    closed spec fn evaluations(&self) -> Seq<Evaluation> {
        self.log@
    }

    closed spec fn environment(&self) -> Environment {
        self.env
    }

    closed spec fn binds_always(&self) -> bool {
        false
    }

    fn init(&mut self, env: Environment) {
        self.env = env;
    }

    fn declare(&mut self, identifier: &str, number_of_arguments: usize, inline_code: &str) -> (r: Result<(), InterpreterError>) {
        let r = self.declare_source(identifier, number_of_arguments, inline_code);
        self.outcomes = Ghost(self.outcomes@.push(r is Ok));
        r
    }

    fn import(&mut self, description: &str, ns: ImportNamespace) -> (r: Result<(), InterpreterError>) {
        let code = match ns {
            ImportNamespace::Current => {
                let mut c = String::from_str("from ");
                c.append(description);
                c.append(" import *");
                c
            },
            ImportNamespace::Separate => {
                let mut c = String::from_str("import ");
                c.append(description);
                c
            },
        };
        self.run(code.as_str())
    }

    fn pass_argument(&mut self, n: usize, argument: &Argument) -> (r: Result<(), InterpreterError>) {
        if n >= SLOT_LIMIT {
            return Err(InterpreterError::SlotOutOfRange(n));
        }
        let name = self.args_names()[n];
        let result = match argument {
            Argument::String(s) => set_text(&self.gil, &self.arguments, name, s.as_str()),
            Argument::Number(v) => set_number(&self.gil, &self.arguments, name, *v),
        };
        match result {
            Ok(()) => {
                self.bound.set(n, true);
                self.values = Ghost(self.values@.update(n as int, Some(argument@)));
                Ok(())
            },
            Err(e) => Err(InterpreterError::Backend(e)),
        }
    }

    fn evaluate(&mut self, id: &str, args_count: usize) -> (r: Result<Box<Argument>, InterpreterError>) {
        let r = self.evaluate_call(id, args_count);
        self.log = Ghost(self.log@.push(
            Evaluation {
                id: id@,
                count: args_count as nat,
                slots: self.values@,
                result: result_value(r),
            },
        ));
        r
    }
}

} // verus!
