use vstd::prelude::*;
use vstd::string::StringExecFns;
use crate::text::{decimal, push_char, push_decimal};

verus! {

/// The number of positional argument slots a backend offers.
pub const SLOT_LIMIT: usize = 6;

/// How an imported library is made visible to declared code.
#[derive(Clone, Copy, PartialEq, Eq, Structural)]
pub enum ImportNamespace {
    /// Under its own qualified name.
    Separate,
    /// Merged into the global scope.
    Current,
}

/// Configuration handed to a backend when it is initialised.
#[derive(Clone, Copy, PartialEq, Eq, Structural)]
pub struct Environment {
    /// Print generated backend code before running it.
    pub declaration_debug: bool,
}

/// The mathematical value of an `Argument`.
pub enum Value {
    Text(Seq<char>),
    Number(int),
}

/// The canonical text of a value: the text itself, or a number in decimal.
pub open spec fn rendered(v: Value) -> Seq<char> {
    match v {
        Value::Text(s) => s,
        Value::Number(n) => decimal(n),
    }
}

/// Combining two values: numbers add, anything else concatenates text.
pub open spec fn combined(a: Value, b: Value) -> Value {
    match (a, b) {
        (Value::Number(x), Value::Number(y)) => Value::Number(x + y),
        _ => Value::Text(rendered(a) + rendered(b)),
    }
}

/// A value crossing into or out of a backend: text or a number.
pub enum Argument {
    String(String),
    Number(i64),
}

impl View for Argument {
    type V = Value;

    open spec fn view(&self) -> Value {
        match self {
            Argument::String(s) => Value::Text(s@),
            Argument::Number(n) => Value::Number(*n as int),
        }
    }
}

impl Argument {
    /// A text value.
    pub fn from_text(v: String) -> (r: Argument)
        ensures
            r@ == Value::Text(v@),
    {
        Argument::String(v)
    }

    /// A number value.
    pub fn from_number(v: i64) -> (r: Argument)
        ensures
            r@ == Value::Number(v as int),
    {
        Argument::Number(v)
    }

    /// An independent copy.
    pub fn duplicate(&self) -> (r: Argument)
        ensures
            r@ == self@,
    {
        match self {
            Argument::String(s) => Argument::String(s.clone()),
            Argument::Number(n) => Argument::Number(*n),
        }
    }

    /// The canonical text of the value.
    pub fn to_text(&self) -> (r: String)
        ensures
            r@ == rendered(self@),
    {
        match self {
            Argument::String(s) => s.clone(),
            Argument::Number(n) => {
                let mut r = String::new();
                push_decimal(&mut r, *n);
                assert(r@ =~= decimal(*n as int));
                r
            },
        }
    }

    /// Combines two values: the sum of two numbers, else the concatenation of
    /// their texts, a number taking its decimal form.
    pub fn add(self, b: Argument) -> (r: Argument)
        requires
            (self, b) matches (Argument::Number(x), Argument::Number(y)) ==> i64::MIN <= x + y
                <= i64::MAX,
        ensures
            r@ == combined(self@, b@),
    {
        match (self, b) {
            (Argument::Number(x), Argument::Number(y)) => Argument::Number(x + y),
            (a, b) => {
                let mut s = a.to_text();
                let t = b.to_text();
                s.append(t.as_str());
                Argument::String(s)
            },
        }
    }
}

impl From<String> for Argument {
    fn from(v: String) -> Argument {
        Argument::String(v)
    }
}

impl vstd::std_specs::convert::FromSpecImpl<String> for Argument {
    open spec fn obeys_from_spec() -> bool {
        true
    }

    open spec fn from_spec(v: String) -> Argument {
        Argument::String(v)
    }
}

impl From<i32> for Argument {
    fn from(v: i32) -> Argument {
        Argument::Number(v as i64)
    }
}

impl vstd::std_specs::convert::FromSpecImpl<i32> for Argument {
    open spec fn obeys_from_spec() -> bool {
        true
    }

    open spec fn from_spec(v: i32) -> Argument {
        Argument::Number(v as i64)
    }
}

/// Coercion law: text with text concatenates, number with number adds, and a
/// number met with text stands as its canonical decimal text, on either side.
pub proof fn lemma_coercion(a: Value, b: Value)
    ensures
        (a, b) matches (Value::Text(s), Value::Text(t)) ==> combined(a, b) == Value::Text(s + t),
        (a, b) matches (Value::Number(x), Value::Number(y)) ==> combined(a, b) == Value::Number(
            x + y,
        ),
        (a, b) matches (Value::Number(x), Value::Text(t)) ==> combined(a, b) == combined(
            Value::Text(decimal(x)),
            b,
        ),
        (a, b) matches (Value::Text(s), Value::Number(y)) ==> combined(a, b) == combined(
            a,
            Value::Text(decimal(y)),
        ),
{
}

/// Why a backend operation failed.
pub enum InterpreterError {
    /// The backend's own diagnostic.
    Backend(String),
    /// A slot index at or beyond `SLOT_LIMIT`.
    SlotOutOfRange(usize),
    /// A call needed a slot that was never bound.
    UnboundSlot(usize),
    /// The callable returned something other than text or a number.
    UnsupportedResult,
    /// The backend does not offer the operation.
    NotImplemented,
    /// Code handed to the backend holds a NUL character.
    NulInCode,
    /// Code handed to the backend holds a character the backend cannot run safely.
    UnsupportedCode,
}

/// A callable registered in a backend session.
pub struct Declaration {
    pub id: Seq<char>,
    pub arity: nat,
    pub code: Seq<char>,
}

/// One call of `evaluate`: the name and slot count asked for, the slots as
/// they were bound, and the value returned (`None` on failure).
pub struct Evaluation {
    pub id: Seq<char>,
    pub count: nat,
    pub slots: Seq<Option<Value>>,
    pub result: Option<Value>,
}

/// The value an evaluation handed back, `None` on failure.
pub open spec fn result_value(r: Result<Box<Argument>, InterpreterError>) -> Option<Value> {
    match r {
        Ok(b) => Some((*b)@),
        Err(_) => None,
    }
}

/// The first of slots `0..count` that is unbound, or -1.
pub open spec fn first_unbound(slots: Seq<Option<Value>>, count: nat) -> int
    decreases count,
{
    if count == 0 {
        -1
    } else if first_unbound(slots, (count - 1) as nat) >= 0 {
        first_unbound(slots, (count - 1) as nat)
    } else if slots[count - 1] is None {
        count - 1
    } else {
        -1
    }
}

/// The text of an optional string.
pub open spec fn opt_text(o: Option<String>) -> Option<Seq<char>> {
    match o {
        Some(s) => Some(s@),
        None => None,
    }
}

/// The value read back from a backend's text and 32-bit integer readings:
/// text first, then the number, else nothing supported.
pub open spec fn read_back(text: Option<Seq<char>>, number: Option<i32>) -> Option<Value> {
    match text {
        Some(s) => Some(Value::Text(s)),
        None => match number {
            Some(v) => Some(Value::Number(v as int)),
            None => None,
        },
    }
}

/// A callable's result read back from the backend: its text when it is
/// text, else its number when it is a 32-bit integer, else unsupported.
pub fn result_of(text: Option<String>, number: Option<i32>) -> (r: Result<Argument, InterpreterError>)
    ensures
        r matches Ok(a) ==> read_back(opt_text(text), number) == Some(a@),
        r is Err <==> read_back(opt_text(text), number) is None,
        r matches Err(e) ==> e is UnsupportedResult,
{
    match text {
        Some(s) => Ok(Argument::String(s)),
        None => match number {
            Some(v) => Ok(Argument::Number(v as i64)),
            None => Err(InterpreterError::UnsupportedResult),
        },
    }
}

/// The operations every scripting backend offers.
///
/// Arguments reach a declared callable through positional slots: bind each
/// with `pass_argument`, then call `evaluate`. The ghost model records the
/// bound slots, the last declaration, every evaluation and the environment.
pub trait Interpreter {
    /// The values bound to the slots, `None` where nothing was bound.
    closed spec fn slots(&self) -> Seq<Option<Value>> {
        Seq::new(SLOT_LIMIT as nat, |i: int| None::<Value>)
    }

    /// The backend's own invariant.
    closed spec fn inv(&self) -> bool {
        true
    }

    /// The callable most recently declared with success.
    closed spec fn declared(&self) -> Option<Declaration> {
        None
    }

    /// Whether each `declare` so far succeeded, oldest first.
    closed spec fn declare_outcomes(&self) -> Seq<bool> {
        Seq::empty()
    }

    /// Every evaluation so far, oldest first.
    closed spec fn evaluations(&self) -> Seq<Evaluation> {
        Seq::empty()
    }

    /// The configuration the backend was last initialised with.
    closed spec fn environment(&self) -> Environment {
        Environment { declaration_debug: false }
    }

    /// Binding a slot within the limit never fails in this backend.
    closed spec fn binds_always(&self) -> bool {
        false
    }

    /// Resets backend-global state from `env`.
    fn init(&mut self, env: Environment)
        requires
            old(self).inv(),
        ensures
            final(self).inv(),
            final(self).slots() == old(self).slots(),
            final(self).slots().len() == SLOT_LIMIT,
            final(self).declared() == old(self).declared(),
            final(self).declare_outcomes() == old(self).declare_outcomes(),
            final(self).evaluations() == old(self).evaluations(),
            final(self).binds_always() == old(self).binds_always(),
            final(self).environment() == env,
    ;

    /// Registers a callable of `number_of_arguments` slots whose body is
    /// `inline_code`, replacing one of the same name.
    fn declare(&mut self, identifier: &str, number_of_arguments: usize, inline_code: &str) -> (r:
        Result<(), InterpreterError>)
        requires
            old(self).inv(),
        ensures
            final(self).inv(),
            final(self).slots() == old(self).slots(),
            final(self).slots().len() == SLOT_LIMIT,
            final(self).evaluations() == old(self).evaluations(),
            final(self).binds_always() == old(self).binds_always(),
            final(self).environment() == old(self).environment(),
            final(self).declare_outcomes() == old(self).declare_outcomes().push(r is Ok),
            number_of_arguments > SLOT_LIMIT ==> r == Err::<(), InterpreterError>(
                InterpreterError::SlotOutOfRange(number_of_arguments),
            ),
            r matches Err(InterpreterError::SlotOutOfRange(m)) ==> number_of_arguments > SLOT_LIMIT
                && m == number_of_arguments,
            r is Ok ==> final(self).declared() == Some(
                Declaration { id: identifier@, arity: number_of_arguments as nat, code: inline_code@ },
            ),
            r is Err ==> final(self).declared() == old(self).declared(),
    ;

    /// Loads a backend-native library into the global scope or its own namespace.
    fn import(&mut self, description: &str, ns: ImportNamespace) -> (r: Result<(), InterpreterError>)
        requires
            old(self).inv(),
        ensures
            final(self).inv(),
            final(self).slots() == old(self).slots(),
            final(self).slots().len() == SLOT_LIMIT,
            final(self).declared() == old(self).declared(),
            final(self).declare_outcomes() == old(self).declare_outcomes(),
            final(self).evaluations() == old(self).evaluations(),
            final(self).binds_always() == old(self).binds_always(),
            final(self).environment() == old(self).environment(),
    ;

    /// Binds slot `n` for the next `evaluate`. An index at or beyond
    /// `SLOT_LIMIT` is an error, and a failed binding changes no slot.
    fn pass_argument(&mut self, n: usize, argument: &Argument) -> (r: Result<(), InterpreterError>)
        requires
            old(self).inv(),
        ensures
            final(self).inv(),
            final(self).slots().len() == SLOT_LIMIT,
            final(self).declared() == old(self).declared(),
            final(self).declare_outcomes() == old(self).declare_outcomes(),
            final(self).evaluations() == old(self).evaluations(),
            final(self).binds_always() == old(self).binds_always(),
            final(self).environment() == old(self).environment(),
            n >= SLOT_LIMIT ==> r == Err::<(), InterpreterError>(InterpreterError::SlotOutOfRange(n)),
            r matches Err(InterpreterError::SlotOutOfRange(m)) ==> n >= SLOT_LIMIT && m == n,
            old(self).binds_always() && n < SLOT_LIMIT ==> r is Ok,
            r is Ok ==> final(self).slots() == old(self).slots().update(n as int, Some(argument@)),
            r is Err ==> final(self).slots() == old(self).slots(),
    ;

    /// Calls the declared callable on slots `0..args_count` and records the
    /// call. Too many slots, or an unbound one, is an error.
    fn evaluate(&mut self, id: &str, args_count: usize) -> (r: Result<Box<Argument>, InterpreterError>)
        requires
            old(self).inv(),
        ensures
            final(self).inv(),
            final(self).slots() == old(self).slots(),
            final(self).slots().len() == SLOT_LIMIT,
            final(self).declared() == old(self).declared(),
            final(self).declare_outcomes() == old(self).declare_outcomes(),
            final(self).binds_always() == old(self).binds_always(),
            final(self).environment() == old(self).environment(),
            final(self).evaluations() == old(self).evaluations().push(
                Evaluation {
                    id: id@,
                    count: args_count as nat,
                    slots: old(self).slots(),
                    result: result_value(r),
                },
            ),
            args_count > SLOT_LIMIT ==> r == Err::<Box<Argument>, InterpreterError>(
                InterpreterError::SlotOutOfRange(args_count),
            ),
            r matches Err(InterpreterError::SlotOutOfRange(m)) ==> args_count > SLOT_LIMIT && m
                == args_count,
            args_count <= SLOT_LIMIT && first_unbound(old(self).slots(), args_count as nat) >= 0
                ==> r == Err::<Box<Argument>, InterpreterError>(
                InterpreterError::UnboundSlot(
                    first_unbound(old(self).slots(), args_count as nat) as usize,
                ),
            ),
            r matches Err(InterpreterError::UnboundSlot(k)) ==> args_count <= SLOT_LIMIT && k
                == first_unbound(old(self).slots(), args_count as nat),
    ;
}

/// Checks slots `0..count` of a backend's bound flags, returning the first
/// unbound one.
pub fn find_unbound(bound: &Vec<bool>, count: usize, slots: Ghost<Seq<Option<Value>>>) -> (r: Option<usize>)
    requires
        count <= bound@.len(),
        count <= slots@.len(),
        forall|i: int| 0 <= i < count ==> (bound@[i] <==> slots@[i] is Some),
    ensures
        r is None <==> first_unbound(slots@, count as nat) < 0,
        r matches Some(k) ==> k == first_unbound(slots@, count as nat),
{
    let mut k: usize = 0;
    while k < count
        invariant
            k <= count <= bound@.len(),
            count <= slots@.len(),
            forall|i: int| 0 <= i < count ==> (bound@[i] <==> slots@[i] is Some),
            first_unbound(slots@, k as nat) == -1,
        decreases count - k,
    {
        if !bound[k] {
            proof {
                lemma_first_unbound_stays(slots@, (k + 1) as nat, count as nat);
            }
            return Some(k);
        }
        k = k + 1;
    }
    None
}

proof fn lemma_first_unbound_stays(slots: Seq<Option<Value>>, c: nat, d: nat)
    requires
        c <= d,
        first_unbound(slots, c) >= 0,
    ensures
        first_unbound(slots, d) == first_unbound(slots, c),
    decreases d - c,
{
    if c < d {
        lemma_first_unbound_stays(slots, c, (d - 1) as nat);
    }
}

/// The global names of the slots, in order.
pub fn slot_names() -> (r: [&'static str; 6])
    ensures
        forall|i: int| 0 <= i < 6 ==> (#[trigger] r@[i])@ == seq![slot_letter(i)],
{
    proof {
        reveal_strlit("a");
        reveal_strlit("b");
        reveal_strlit("c");
        reveal_strlit("d");
        reveal_strlit("e");
        reveal_strlit("f");
    }
    let r = ["a", "b", "c", "d", "e", "f"];
    assert forall|i: int| 0 <= i < 6 implies (#[trigger] r@[i])@ == seq![slot_letter(i)] by {
        if i == 0 {
            assert(r@[0]@ =~= seq![slot_letter(0)]);
        } else if i == 1 {
            assert(r@[1]@ =~= seq![slot_letter(1)]);
        } else if i == 2 {
            assert(r@[2]@ =~= seq![slot_letter(2)]);
        } else if i == 3 {
            assert(r@[3]@ =~= seq![slot_letter(3)]);
        } else if i == 4 {
            assert(r@[4]@ =~= seq![slot_letter(4)]);
        } else {
            assert(r@[5]@ =~= seq![slot_letter(5)]);
        }
    }
    r
}

/// The expression that calls `id` on its first `n` slots.
pub open spec fn call_text(id: Seq<char>, n: nat) -> Seq<char> {
    id + "("@ + argument_list_text(n) + ")"@
}

/// The expression that calls `id` on its first `n` slots.
pub fn call_expression(id: &str, n: usize) -> (r: String)
    requires
        n <= SLOT_LIMIT,
    ensures
        r@ == call_text(id@, n as nat),
{
    let mut s = String::from_str(id);
    s.append("(");
    let list = argument_list(n);
    s.append(list.as_str());
    s.append(")");
    assert(s@ =~= call_text(id@, n as nat));
    s
}

/// The name of slot `i`: a single lower-case letter from `a`.
pub open spec fn slot_letter(i: int) -> char {
    (('a' as int) + i) as char
}

/// The parameter list of a callable of `n` slots: `a, b, c`.
pub open spec fn argument_list_text(n: nat) -> Seq<char>
    decreases n,
{
    if n == 0 {
        seq![]
    } else if n == 1 {
        seq![slot_letter(0)]
    } else {
        argument_list_text((n - 1) as nat) + seq![',', ' ', slot_letter(n - 1)]
    }
}

/// The parameter list of a callable of `n` slots: `a, b, c`.
pub fn argument_list(n: usize) -> (r: String)
    requires
        n <= SLOT_LIMIT,
    ensures
        r@ == argument_list_text(n as nat),
{
    let mut result = String::new();
    let mut i: usize = 0;
    while i < n
        invariant
            i <= n <= SLOT_LIMIT,
            result@ == argument_list_text(i as nat),
        decreases n - i,
    {
        if i > 0 {
            push_char(&mut result, ',');
            push_char(&mut result, ' ');
        }
        let c = (97u8 + i as u8) as char;
        assert(c == slot_letter(i as int));
        push_char(&mut result, c);
        i = i + 1;
        assert(result@ =~= argument_list_text(i as nat));
    }
    result
}

} // verus!
