use vstd::prelude::*;
use vstd::string::StringExecFns;
use vstd::string::StrSliceExecFns;
use crate::interpreters::{
    argument_list, argument_list_text, call_expression, call_text, find_unbound, first_unbound,
    read_back, result_of, result_value, slot_letter, slot_names, Argument, Declaration, Environment,
    Evaluation, ImportNamespace, Interpreter, InterpreterError, Value, SLOT_LIMIT,
};
use crate::text::{free_of_nul, push_decimal};
use hlua::Lua as LuaState;

verus! {

#[verifier::external_type_specification]
#[verifier::external_body]
pub struct ExLuaState<'lua>(LuaState<'lua>);

/// Relies on hlua::Lua::new: a fresh Lua state with no globals set by us.
#[verifier::external_body]
fn lua_state() -> LuaState<'static> {
    LuaState::new()
}

/// Relies on hlua::Lua::execute: runs a chunk of Lua code; a syntax or
/// runtime error comes back as its debug text. hlua panics when an error
/// value is not UTF-8 text, or on an unusual `lua_pcall` status. The state
/// has no standard library (`Lua::new` opens none), so no chunk can call
/// `error`, `setmetatable` or `string.char`: error values are messages that
/// Lua builds from the source text, and with source of plain ASCII without
/// backslashes they stay ASCII.
#[verifier::external_body]
fn lua_execute(lua: &mut LuaState<'static>, code: &str) -> Result<(), String>
    requires
        lua_safe(code@),
{
    match lua.execute::<()>(code) {
        Ok(()) => Ok(()),
        Err(e) => Err(format!("{:?}", e)),
    }
}

/// Relies on hlua::Lua::get, read as a string: `None` when the global is
/// nil or not convertible to text. The name becomes a C string, so it may
/// hold no NUL.
#[verifier::external_body]
fn lua_get_string(lua: &mut LuaState<'static>, name: &str) -> Option<String>
    requires
        free_of_nul(name@),
{
    lua.get::<String, _>(name)
}

/// Relies on hlua::Lua::get, read as a 32-bit integer: `None` when the global
/// is nil or not such a number. The name may hold no NUL, as above.
#[verifier::external_body]
fn lua_get_i32(lua: &mut LuaState<'static>, name: &str) -> Option<i32>
    requires
        free_of_nul(name@),
{
    lua.get::<i32, _>(name)
}

/// Relies on hlua::Lua::set with a string value: assigns the global.
#[verifier::external_body]
fn lua_set_string(lua: &mut LuaState<'static>, name: &str, value: String) {
    lua.set(name, value)
}

/// Relies on hlua::Lua::set with a 32-bit integer value: assigns the global.
#[verifier::external_body]
fn lua_set_i32(lua: &mut LuaState<'static>, name: &str, value: i32) {
    lua.set(name, value)
}

/// The Lua code that declares function `id` of `n` slots with body `code`.
pub open spec fn lua_declaration(id: Seq<char>, n: nat, code: Seq<char>) -> Seq<char> {
    "function "@ + id + "("@ + argument_list_text(n) + ") "@ + code + " end"@
}

/// Source text that the Lua state runs safely: ASCII, no backslash, no NUL.
pub open spec fn lua_safe(s: Seq<char>) -> bool {
    forall|i: int| 0 <= i < s.len() ==> (s[i] as u32) < 128 && s[i] != '\\' && s[i] != '\0'
}

/// Whether `s` is source text that the Lua state runs safely.
pub fn is_lua_safe(s: &str) -> (r: bool)
    ensures
        r == lua_safe(s@),
{
    let n = s.unicode_len();
    let mut i: usize = 0;
    while i < n
        invariant
            n == s@.len(),
            i <= n,
            forall|j: int| 0 <= j < i ==> (s@[j] as u32) < 128 && s@[j] != '\\' && s@[j] != '\0',
        decreases n - i,
    {
        let c = s.get_char(i);
        if !((c as u32) < 128 && c != '\\' && c != '\0') {
            return false;
        }
        i = i + 1;
    }
    true
}

/// A backend on an embedded Lua state. Slot `i` is the global named by the
/// `i`-th letter from `a`. A number outside the 32-bit range is bound as its
/// decimal text, which Lua turns back into a number in arithmetic; the slot
/// model records the number.
pub struct Lua {
    i: LuaState<'static>,
    env: Environment,
    bound: Vec<bool>,
    values: Ghost<Seq<Option<Value>>>,
    declaration: Ghost<Option<Declaration>>,
    outcomes: Ghost<Seq<bool>>,
    log: Ghost<Seq<Evaluation>>,
}

impl Lua {
    /// Two states agree on everything but the Lua state itself.
    pub closed spec fn same_model(&self, o: &Lua) -> bool {
        &&& self.bound@ == o.bound@
        &&& self.values == o.values
        &&& self.declaration == o.declaration
        &&& self.outcomes == o.outcomes
        &&& self.log == o.log
        &&& self.env == o.env
    }

    /// A backend on a fresh Lua state, with no slot bound and nothing declared.
    pub fn new() -> (r: Lua)
        ensures
            r.inv(),
            r.slots() == Seq::new(SLOT_LIMIT as nat, |i: int| None::<Value>),
            r.declared() is None,
            r.evaluations().len() == 0,
            r.binds_always(),
    {
        let mut bound: Vec<bool> = Vec::new();
        let mut k: usize = 0;
        while k < SLOT_LIMIT
            invariant
                k <= SLOT_LIMIT,
                bound@ == Seq::new(k as nat, |i: int| false),
            decreases SLOT_LIMIT - k,
        {
            bound.push(false);
            k = k + 1;
            assert(bound@ =~= Seq::new(k as nat, |i: int| false));
        }
        Lua {
            i: lua_state(),
            env: Environment { declaration_debug: false },
            bound,
            values: Ghost(Seq::new(SLOT_LIMIT as nat, |i: int| None::<Value>)),
            declaration: Ghost(None),
            outcomes: Ghost(Seq::empty()),
            log: Ghost(Seq::empty()),
        }
    }

    /// The parameter list of a callable of `n` slots.
    pub fn args_list(&self, n: usize) -> (r: String)
        requires
            n <= SLOT_LIMIT,
        ensures
            r@ == argument_list_text(n as nat),
    {
        argument_list(n)
    }

    /// The global names of the slots, in order.
    pub fn args_names(&self) -> (r: [&'static str; 6])
        ensures
            forall|i: int| 0 <= i < 6 ==> (#[trigger] r@[i])@ == seq![slot_letter(i)],
    {
        slot_names()
    }

    /// The result the last call left in the wrapper variable, as `result_of`
    /// reads it from the global's text and 32-bit integer forms.
    pub fn read_wrapper_var(&mut self) -> (r: Result<Argument, InterpreterError>)
        ensures
            final(self).same_model(old(self)),
            r matches Err(e) ==> e is UnsupportedResult,
            exists|text: Option<Seq<char>>, number: Option<i32>| {
                &&& (r matches Ok(a) ==> read_back(text, number) == Some(a@))
                &&& (r is Err <==> read_back(text, number) is None)
            },
    {
        let code = "_wrapper_variable";
        proof {
            reveal_strlit("_wrapper_variable");
        }
        let text = lua_get_string(&mut self.i, code);
        let number = match text {
            Some(_) => None,
            None => lua_get_i32(&mut self.i, code),
        };
        result_of(text, number)
    }

    /// Runs `_wrapper_variable = <code>`; source the state cannot run
    /// safely is refused.
    pub fn execute_to_wrapper_var(&mut self, code: &str) -> (r: Result<(), InterpreterError>)
        ensures
            final(self).same_model(old(self)),
            !lua_safe(code@) <==> r == Err::<(), InterpreterError>(InterpreterError::UnsupportedCode),
            r matches Err(e) ==> (e is UnsupportedCode || e is Backend),
    {
        let mut line = String::from_str("_wrapper_variable = ");
        line.append(code);
        proof {
            reveal_strlit("_wrapper_variable = ");
        }
        if !is_lua_safe(line.as_str()) {
            assert(!lua_safe(code@)) by {
                if lua_safe(code@) {
                    assert(line@ =~= "_wrapper_variable = "@ + code@);
                    assert(lua_safe(line@));
                }
            }
            return Err(InterpreterError::UnsupportedCode);
        }
        assert(line@ =~= "_wrapper_variable = "@ + code@);
        assert(lua_safe(code@)) by {
            assert forall|j: int| 0 <= j < code@.len() implies (code@[j] as u32) < 128 && code@[j] != '\\' && code@[j] != '\0' by {
                assert(line@[j + 20] == code@[j]);
            }
        }
        match lua_execute(&mut self.i, line.as_str()) {
            Ok(()) => Ok(()),
            Err(e) => Err(InterpreterError::Backend(e)),
        }
    }

    /// The Lua code that declares `id` with `args` slots and body `code`.
    pub fn declaration_code(&self, id: &str, args: usize, code: &str) -> (r: String)
        requires
            args <= SLOT_LIMIT,
        ensures
            r@ == lua_declaration(id@, args as nat, code@),
    {
        let mut s = String::from_str("function ");
        s.append(id);
        s.append("(");
        let list = self.args_list(args);
        s.append(list.as_str());
        s.append(") ");
        s.append(code);
        s.append(" end");
        assert(s@ =~= lua_declaration(id@, args as nat, code@));
        s
    }

    /// The Lua expression that calls `id` on its first `args` slots.
    pub fn call_code(&self, id: &str, args: usize) -> (r: String)
        requires
            args <= SLOT_LIMIT,
        ensures
            r@ == call_text(id@, args as nat),
    {
        call_expression(id, args)
    }

    fn evaluate_call(&mut self, id: &str, args_count: usize) -> (r: Result<Box<Argument>, InterpreterError>)
        requires
            old(self).inv(),
        ensures
            final(self).same_model(old(self)),
            args_count > SLOT_LIMIT ==> r == Err::<Box<Argument>, InterpreterError>(
                InterpreterError::SlotOutOfRange(args_count),
            ),
            r matches Err(InterpreterError::SlotOutOfRange(m)) ==> args_count > SLOT_LIMIT && m
                == args_count,
            args_count <= SLOT_LIMIT && first_unbound(old(self).values@, args_count as nat) >= 0
                ==> r == Err::<Box<Argument>, InterpreterError>(
                InterpreterError::UnboundSlot(
                    first_unbound(old(self).values@, args_count as nat) as usize,
                ),
            ),
            r matches Err(InterpreterError::UnboundSlot(k)) ==> args_count <= SLOT_LIMIT && k
                == first_unbound(old(self).values@, args_count as nat),
    {
        if args_count > SLOT_LIMIT {
            return Err(InterpreterError::SlotOutOfRange(args_count));
        }
        match find_unbound(&self.bound, args_count, Ghost(self.values@)) {
            Some(k) => return Err(InterpreterError::UnboundSlot(k)),
            None => {},
        }
        let code = self.call_code(id, args_count);
        match self.execute_to_wrapper_var(code.as_str()) {
            Ok(()) => {},
            Err(e) => return Err(e),
        }
        match self.read_wrapper_var() {
            Ok(v) => Ok(Box::new(v)),
            Err(e) => Err(e),
        }
    }

    /// Source that is not plain ASCII without backslashes is refused as
    /// `UnsupportedCode`.
    fn declare_source(&mut self, identifier: &str, number_of_arguments: usize, inline_code: &str) -> (r: Result<(), InterpreterError>)
        ensures
            final(self).bound@ == old(self).bound@,
            final(self).values == old(self).values,
            final(self).log == old(self).log,
            final(self).env == old(self).env,
            final(self).outcomes == old(self).outcomes,
            number_of_arguments > SLOT_LIMIT ==> r == Err::<(), InterpreterError>(
                InterpreterError::SlotOutOfRange(number_of_arguments),
            ),
            r matches Err(InterpreterError::SlotOutOfRange(m)) ==> number_of_arguments > SLOT_LIMIT
                && m == number_of_arguments,
            r is Ok ==> final(self).declaration@ == Some(
                Declaration { id: identifier@, arity: number_of_arguments as nat, code: inline_code@ },
            ),
            r is Err ==> final(self).declaration == old(self).declaration,
    {
        if number_of_arguments > SLOT_LIMIT {
            return Err(InterpreterError::SlotOutOfRange(number_of_arguments));
        }
        let code = self.declaration_code(identifier, number_of_arguments, inline_code);
        if !is_lua_safe(code.as_str()) {
            return Err(InterpreterError::UnsupportedCode);
        }
        match lua_execute(&mut self.i, code.as_str()) {
            Ok(()) => {
                self.declaration = Ghost(Some(Declaration {
                    id: identifier@,
                    arity: number_of_arguments as nat,
                    code: inline_code@,
                }));
                Ok(())
            },
            Err(e) => Err(InterpreterError::Backend(e)),
        }
    }
}

impl Interpreter for Lua {
    closed spec fn slots(&self) -> Seq<Option<Value>> {
        self.values@
    }

    closed spec fn inv(&self) -> bool {
        &&& self.bound@.len() == SLOT_LIMIT
        &&& self.values@.len() == SLOT_LIMIT
        &&& forall|i: int| 0 <= i < SLOT_LIMIT ==> (self.bound@[i] <==> self.values@[i] is Some)
    }

    closed spec fn declared(&self) -> Option<Declaration> {
        self.declaration@
    }

    closed spec fn declare_outcomes(&self) -> Seq<bool> {
        self.outcomes@
    }

    closed spec fn evaluations(&self) -> Seq<Evaluation> {
        self.log@
    }

    closed spec fn environment(&self) -> Environment {
        self.env
    }

    closed spec fn binds_always(&self) -> bool {
        true
    }

    fn init(&mut self, env: Environment) {
        self.env = env;
    }

    fn declare(&mut self, identifier: &str, number_of_arguments: usize, inline_code: &str) -> (r: Result<(), InterpreterError>) {
        let r = self.declare_source(identifier, number_of_arguments, inline_code);
        self.outcomes = Ghost(self.outcomes@.push(r is Ok));
        r
    }

    fn import(&mut self, description: &str, ns: ImportNamespace) -> (r: Result<(), InterpreterError>) {
        Err(InterpreterError::NotImplemented)
    }

    fn pass_argument(&mut self, n: usize, argument: &Argument) -> (r: Result<(), InterpreterError>) {
        if n >= SLOT_LIMIT {
            return Err(InterpreterError::SlotOutOfRange(n));
        }
        let name = self.args_names()[n];
        match argument {
            Argument::String(s) => lua_set_string(&mut self.i, name, s.clone()),
            Argument::Number(v) => {
                if -2147483648 <= *v && *v <= 2147483647 {
                    lua_set_i32(&mut self.i, name, *v as i32);
                } else {
                    let mut s = String::new();
                    push_decimal(&mut s, *v);
                    lua_set_string(&mut self.i, name, s);
                }
            },
        }
        self.bound.set(n, true);
        self.values = Ghost(self.values@.update(n as int, Some(argument@)));
        Ok(())
    }

    fn evaluate(&mut self, id: &str, args_count: usize) -> (r: Result<Box<Argument>, InterpreterError>) {
        let r = self.evaluate_call(id, args_count);
        self.log = Ghost(self.log@.push(
            Evaluation {
                id: id@,
                count: args_count as nat,
                slots: self.values@,
                result: result_value(r),
            },
        ));
        r
    }
}

} // verus!
