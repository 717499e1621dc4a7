use fp::args::{parse_arguments, Arguments};
use fp::interpreters::{
    Argument, Environment, ImportNamespace, Interpreter, InterpreterError, SLOT_LIMIT,
};
use fp::lua::Lua;
use fp::pipeline::process_function;

/// A backend whose callables are fixed Rust functions of the bound slots.
struct Scripted {
    slots: Vec<Option<Argument>>,
    call: fn(&[Argument]) -> Result<Argument, InterpreterError>,
    seen_first_slot: Vec<String>,
}

impl Scripted {
    fn new(call: fn(&[Argument]) -> Result<Argument, InterpreterError>) -> Scripted {
        Scripted { slots: (0..SLOT_LIMIT).map(|_| None).collect(), call, seen_first_slot: vec![] }
    }
}

impl Interpreter for Scripted {
    fn init(&mut self, _env: Environment) {}

    fn declare(&mut self, _id: &str, n: usize, _code: &str) -> Result<(), InterpreterError> {
        if n > SLOT_LIMIT {
            return Err(InterpreterError::SlotOutOfRange(n));
        }
        Ok(())
    }

    fn import(&mut self, _d: &str, _ns: ImportNamespace) -> Result<(), InterpreterError> {
        Err(InterpreterError::NotImplemented)
    }

    fn pass_argument(&mut self, n: usize, a: &Argument) -> Result<(), InterpreterError> {
        if n >= SLOT_LIMIT {
            return Err(InterpreterError::SlotOutOfRange(n));
        }
        self.slots[n] = Some(a.duplicate());
        Ok(())
    }

    fn evaluate(&mut self, _id: &str, n: usize) -> Result<Box<Argument>, InterpreterError> {
        let mut args = vec![];
        for i in 0..n {
            match &self.slots[i] {
                Some(a) => args.push(a.duplicate()),
                None => return Err(InterpreterError::UnboundSlot(i)),
            }
        }
        if let Some(first) = args.first() {
            self.seen_first_slot.push(first.to_text());
        }
        (self.call)(&args).map(Box::new)
    }
}

fn number(a: &Argument) -> i64 {
    match a {
        Argument::Number(n) => *n,
        Argument::String(s) => s.trim().parse().unwrap(),
    }
}

fn identity(args: &[Argument]) -> Result<Argument, InterpreterError> {
    Ok(args[args.len() - 1].duplicate())
}

fn sum(args: &[Argument]) -> Result<Argument, InterpreterError> {
    Ok(Argument::from_number(number(&args[0]) + number(&args[1])))
}

fn failing(_args: &[Argument]) -> Result<Argument, InterpreterError> {
    Err(InterpreterError::Backend("always fails".to_string()))
}

fn run(words: &[&str], tokens: &[&str], backend: &mut Scripted) -> Vec<String> {
    let argv: Vec<String> = words.iter().map(|w| w.to_string()).collect();
    let args: Arguments = parse_arguments(&argv).ok().unwrap();
    let tokens: Vec<String> = tokens.iter().map(|t| t.to_string()).collect();
    match process_function(&args, &tokens, backend) {
        Ok(out) => out.iter().map(|a| a.to_text()).collect(),
        Err(_) => panic!("declaration failed"),
    }
}

#[test]
fn map_identity_reproduces_tokens() {
    let mut b = Scripted::new(identity);
    let out = run(&["fp", "map", "a"], &["x", "", "y z"], &mut b);
    assert_eq!(out, vec!["x", "", "y z"]);
}

#[test]
fn map_indexed_sees_indices_in_order() {
    let mut b = Scripted::new(identity);
    let out = run(&["fp", "map-indexed", "b"], &["t0", "t1", "t2"], &mut b);
    assert_eq!(b.seen_first_slot, vec!["0", "1", "2"]);
    assert_eq!(out, vec!["t0", "t1", "t2"]);
}

#[test]
fn fold_sums_lines() {
    let tokens = fp::tokenizer::tokenize("\n", &vec![b"1\n2\n3\n".to_vec()]).unwrap();
    let tokens: Vec<String> = tokens.into_iter().map(|t| String::from_utf8(t).unwrap()).collect();
    let refs: Vec<&str> = tokens.iter().map(|t| t.as_str()).collect();
    let mut b = Scripted::new(sum);
    let out = run(&["fp", "fold", "0", "a", "+", "b"], &refs, &mut b);
    assert_eq!(out, vec!["6"]);
}

#[test]
fn failing_callable_passes_tokens_through() {
    let mut b = Scripted::new(failing);
    let out = run(&["fp", "map", "a"], &["p", "q"], &mut b);
    assert_eq!(out, vec!["p", "q"]);
}

#[test]
fn failing_callable_without_passthrough_emits_nothing() {
    let mut b = Scripted::new(failing);
    let out = run(&["fp", "-p", "map", "a"], &["p", "q"], &mut b);
    assert!(out.is_empty());
}

#[test]
fn lua_rejects_slot_beyond_limit() {
    let mut lua = Lua::new();
    assert!(lua.pass_argument(0, &Argument::from_text("kept".to_string())).is_ok());
    assert!(matches!(
        lua.pass_argument(SLOT_LIMIT, &Argument::from_text("x".to_string())),
        Err(InterpreterError::SlotOutOfRange(6))
    ));
    assert!(lua.declare("foo", 1, "return a").is_ok());
    match lua.evaluate("foo", 1) {
        Ok(v) => assert_eq!(v.to_text(), "kept"),
        Err(_) => panic!("evaluation failed"),
    }
}

#[test]
fn lua_unbound_slot_is_an_error() {
    let mut lua = Lua::new();
    assert!(lua.declare("foo", 2, "return a .. b").is_ok());
    assert!(lua.pass_argument(0, &Argument::from_text("x".to_string())).is_ok());
    assert!(matches!(lua.evaluate("foo", 2), Err(InterpreterError::UnboundSlot(1))));
}

#[test]
fn lua_code_generation() {
    let lua = Lua::new();
    assert_eq!(lua.args_list(0), "");
    assert_eq!(lua.args_list(3), "a, b, c");
    assert_eq!(lua.declaration_code("foo", 2, "return a"), "function foo(a, b) return a end");
    assert_eq!(lua.call_code("foo", 1), "foo(a)");
    assert_eq!(lua.args_names()[5], "f");
}

#[test]
fn lua_map_runs_real_code() {
    let mut lua = Lua::new();
    let argv: Vec<String> = ["fp", "map", "return", "a", "..", "#!#"].iter().map(|w| w.to_string()).collect();
    let args = parse_arguments(&argv).ok().unwrap();
    let tokens = vec!["x".to_string(), "y".to_string()];
    match process_function(&args, &tokens, &mut lua) {
        Ok(out) => {
            let out: Vec<String> = out.iter().map(|a| a.to_text()).collect();
            assert_eq!(out, vec!["x!", "y!"]);
        },
        Err(_) => panic!("declaration failed"),
    }
}

#[test]
fn lua_refuses_code_it_cannot_run_safely() {
    let mut lua = Lua::new();
    assert!(matches!(lua.declare("foo", 1, "return \"\\255\""), Err(InterpreterError::UnsupportedCode)));
    assert!(matches!(lua.declare("foo", 1, "return \"\u{e9}\""), Err(InterpreterError::UnsupportedCode)));
    assert!(matches!(lua.declare("foo", 7, "return a"), Err(InterpreterError::SlotOutOfRange(7))));
}

#[test]
fn lua_runtime_error_is_returned() {
    let mut lua = Lua::new();
    assert!(lua.declare("foo", 1, "return a + {}").is_ok());
    assert!(lua.pass_argument(0, &Argument::from(1)).is_ok());
    assert!(matches!(lua.evaluate("foo", 1), Err(InterpreterError::Backend(_))));
    assert!(matches!(lua.declare("foo", 1, "return ("), Err(InterpreterError::Backend(_))));
}
