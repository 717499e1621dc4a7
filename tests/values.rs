use fp::interpreters::Argument;

fn text(a: &Argument) -> String {
    a.to_text()
}

#[test]
fn text_plus_text_concatenates() {
    let r = Argument::from_text("ab".to_string()).add(Argument::from_text("cd".to_string()));
    assert!(matches!(&r, Argument::String(s) if s == "abcd"));
}

#[test]
fn number_plus_number_adds() {
    let r = Argument::from_number(40).add(Argument::from_number(2));
    assert!(matches!(r, Argument::Number(42)));
}

#[test]
fn number_plus_text_uses_decimal_text() {
    let r = Argument::from_number(-12).add(Argument::from_text("x".to_string()));
    assert!(matches!(&r, Argument::String(s) if s == "-12x"));
    let r = Argument::from_text("x".to_string()).add(Argument::from_number(305));
    assert!(matches!(&r, Argument::String(s) if s == "x305"));
}

#[test]
fn numbers_render_in_decimal() {
    assert_eq!(text(&Argument::from_number(0)), "0");
    assert_eq!(text(&Argument::from_number(6)), "6");
    assert_eq!(text(&Argument::from_number(1000)), "1000");
    assert_eq!(text(&Argument::from_number(i64::MIN)), "-9223372036854775808");
    assert_eq!(text(&Argument::from_number(i64::MAX)), "9223372036854775807");
}

#[test]
fn duplicate_keeps_value() {
    let a = Argument::from_text("q".to_string());
    assert_eq!(a.duplicate().to_text(), "q");
}
