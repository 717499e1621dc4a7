use fp::args::{parse_arguments, ArgsError, Function, FunctionName};
use fp::interpreters::Argument;

fn argv(words: &[&str]) -> Vec<String> {
    words.iter().map(|w| w.to_string()).collect()
}

fn code(f: &Function) -> String {
    match f {
        Function::MapEach { code } => code.clone(),
        Function::MapIndexed { code } => code.clone(),
        Function::Fold { code, .. } => code.clone(),
    }
}

#[test]
fn map_with_defaults() {
    let a = parse_arguments(&argv(&["fp", "map", "a.upper()"])).ok().unwrap();
    assert!(a.function.name() == FunctionName::MapEach);
    assert_eq!(code(&a.function), "a.upper()");
    assert_eq!(a.separator, "\n");
    assert!(a.passtrough_on_error);
    assert!(!a.env.declaration_debug);
}

#[test]
fn flags_before_operation() {
    let a = parse_arguments(&argv(&["fp", "-w", "-d", "-p", "map-indexed", "a", "+", "b"]))
        .ok()
        .unwrap();
    assert!(a.function.name() == FunctionName::MapIndexed);
    assert_eq!(code(&a.function), "a + b");
    assert_eq!(a.separator, " ");
    assert!(!a.passtrough_on_error);
    assert!(a.env.declaration_debug);
}

#[test]
fn hash_stands_for_double_quote() {
    let a = parse_arguments(&argv(&["fp", "map", "#x#", "+", "a"])).ok().unwrap();
    assert_eq!(code(&a.function), "\"x\" + a");
}

#[test]
fn flags_after_operation_are_code() {
    let a = parse_arguments(&argv(&["fp", "map", "-p"])).ok().unwrap();
    assert!(a.passtrough_on_error);
    assert_eq!(code(&a.function), "-p");
}

#[test]
fn fold_reads_initial_value() {
    let a = parse_arguments(&argv(&["fp", "fold", "0", "a", "+", "b"])).ok().unwrap();
    assert_eq!(code(&a.function), "a + b");
    match &a.function {
        Function::Fold { value, .. } => assert!(matches!(value, Argument::Number(0))),
        _ => panic!("expected a fold"),
    }
}

#[test]
fn initial_values_parse_as_integer_or_text() {
    let v = |s: &str| Function::parse_value(&s.to_string());
    assert!(matches!(v("-5"), Argument::Number(-5)));
    assert!(matches!(v("+7"), Argument::Number(7)));
    assert!(matches!(v("2147483647"), Argument::Number(2147483647)));
    assert!(matches!(v("-2147483648"), Argument::Number(-2147483648)));
    assert!(matches!(v("2147483648"), Argument::String(_)));
    assert!(matches!(v("12a"), Argument::String(_)));
    assert!(matches!(v("-"), Argument::String(_)));
    assert!(matches!(v(""), Argument::String(_)));
}

#[test]
fn missing_operation_is_an_error() {
    assert!(matches!(parse_arguments(&argv(&["fp", "-w"])), Err(ArgsError::MissingOperation)));
    assert!(matches!(parse_arguments(&argv(&["fp", "reduce"])), Err(ArgsError::MissingOperation)));
}

#[test]
fn fold_without_initial_value_is_an_error() {
    assert!(matches!(
        parse_arguments(&argv(&["fp", "fold"])),
        Err(ArgsError::MissingInitialValue)
    ));
}

#[test]
fn operation_keywords() {
    assert!(Function::name_from_string("map") == Some(FunctionName::MapEach));
    assert!(Function::name_from_string("map-indexed") == Some(FunctionName::MapIndexed));
    assert!(Function::name_from_string("fold") == Some(FunctionName::Fold));
    assert!(Function::name_from_string("maps").is_none());
}

#[test]
fn code_words_join_with_single_spaces() {
    let a = parse_arguments(&argv(&["fp", "map", "a"])).ok().unwrap();
    assert_eq!(code(&a.function), "a");
    let a = parse_arguments(&argv(&["fp", "map"])).ok().unwrap();
    assert_eq!(code(&a.function), "");
}
