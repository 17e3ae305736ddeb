use jlang::{lex, R, T};

#[test]
fn lex_single_scalar() -> R<()> {
    let ts = lex("1")?;
    assert_eq!(ts.as_slice(), [T::I(1)]);
    Ok(())
}

#[test]
fn lex_1x3() -> R<()> {
    let ts = lex("1 2 3")?;
    assert_eq!(ts.as_slice(), [T::I(1), T::I(2), T::I(3)]);
    Ok(())
}

#[test]
fn lex_1plus2() -> R<()> {
    let ts = lex("1 + 2")?;
    assert_eq!(ts.as_slice(), [T::I(1), T::V(String::from("+")), T::I(2)]);
    Ok(())
}
