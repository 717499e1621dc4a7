use fp::interpreters::{Argument, Environment, ImportNamespace, Interpreter, InterpreterError};
use fp::python::Python;

#[test]
fn python_code_generation() {
    let py = Python::new(Environment { declaration_debug: false });
    assert_eq!(py.args_list(2), "a, b");
    assert_eq!(py.construct_call("foo_wrapped", 2), "return foo_wrapped(a, b)");
    assert_eq!(
        py.construct_declaration("foo", 1, "x = a\nreturn x"),
        "def foo(a):\n  x = a\n  return x"
    );
    assert_eq!(py.construct_declaration("foo", 2, "\\a + b"), "foo = lambda a, b: a + b");
}

#[test]
fn python_runs_declared_callable() {
    let mut py = Python::new(Environment { declaration_debug: true });
    assert!(py.declare("foo", 2, "\\a + b").is_ok());
    assert_eq!(py.take_trace().len(), 2);
    assert!(py.pass_argument(0, &Argument::from(40)).is_ok());
    assert!(py.pass_argument(1, &Argument::from(2)).is_ok());
    match py.evaluate("foo", 2) {
        Ok(v) => assert!(matches!(*v, Argument::Number(42))),
        Err(_) => panic!("evaluation failed"),
    }
    assert!(matches!(py.pass_argument(7, &Argument::from(1)), Err(InterpreterError::SlotOutOfRange(7))));
    assert!(py.import("math", ImportNamespace::Separate).is_ok());
    assert!(py.pass_argument(0, &Argument::from("x".to_string())).is_ok());
    assert!(py.declare("bar", 1, "\\[a]").is_ok());
    assert!(matches!(py.evaluate("bar", 1), Err(InterpreterError::UnsupportedResult)));
}
