use jlang::SY;

#[test]
fn simple_symbol_succeeds() {
    assert!(SY::from_str("abc").is_ok())
}

#[test]
fn underscore_symbol_succeeds() {
    assert!(SY::from_str("abc_def").is_ok())
}

#[test]
fn trailing_number_symbol_succeeds() {
    assert!(SY::from_str("a1").is_ok())
}

#[test]
fn empty_symbol_fails() {
    assert!(SY::from_str("").is_err())
}

#[test]
fn number_symbol_fails() {
    assert!(SY::from_str("1").is_err())
}

#[test]
fn leading_number_symbol_fails() {
    assert!(SY::from_str("1a").is_err())
}
