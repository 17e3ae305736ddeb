use jlang::{parse, R};

#[test]
fn parse_1x1() -> R<()> {
    let _ast = parse("1")?;
    Ok(())
}

#[test]
fn parse_1x3() -> R<()> {
    let _ast = parse("1 2 3")?;
    Ok(())
}

#[test]
fn parse_tally_1() -> R<()> {
    let _ast = parse("# 1")?;
    Ok(())
}

#[test]
fn parse_tally_1x3() -> R<()> {
    let _ast = parse("# 1 2 3")?;
    Ok(())
}

#[test]
fn parse_tally_as_dyad_fails() {
    assert!(parse("1 # 2").is_err());
}

#[test]
fn parse_tally_with_no_operand() {
    assert!(parse("#").is_err());
}

#[test]
fn parse_idot_as_dyad_fails() {
    assert!(parse("1 # 2").is_err());
}

#[test]
fn parse_idot_with_no_operand() {
    assert!(parse("i.").is_err());
}

#[test]
fn parse_idot_1() -> R<()> {
    let _ast = parse("i. 1")?;
    Ok(())
}

#[test]
fn parse_idot_1x2() -> R<()> {
    let _ast = parse("i. 4 3")?;
    Ok(())
}

#[test]
fn parse_1plus2() -> R<()> {
    let _ast = parse("1 + 2")?;
    Ok(())
}

#[test]
fn parse_1x3_times_1x3() -> R<()> {
    let _ast = parse("1 2 3 * 4 5 6")?;
    Ok(())
}

#[test]
fn parse_tally_tally_1x3() -> R<()> {
    let _ast = parse("# # 1 2 3")?;
    Ok(())
}

#[test]
fn parse_symbol() -> R<()> {
    let _ast = parse("a")?;
    Ok(())
}

#[test]
fn parse_symbol_plus_symbol() -> R<()> {
    let _ast = parse("a + b")?;
    Ok(())
}

#[test]
fn parse_tally_symbol() -> R<()> {
    let _ast = parse("# a")?;
    Ok(())
}

#[test]
fn parse_symbol_times_symbol() -> R<()> {
    let _ast = parse("a * b")?;
    Ok(())
}

#[test]
fn parse_tally_tally_symbol() -> R<()> {
    let _ast = parse("# # a")?;
    Ok(())
}

#[test]
fn parse_symbol_times_symbol_numbers() {
    assert!(parse("a * b 1").is_err());
}

#[test]
fn parse_tally_tally_symbol_symbol() {
    assert!(parse("# # a b").is_err());
}

#[test]
fn assign_symbol_scalar() -> R<()> {
    let _ast = parse("a =: 1")?;
    Ok(())
}

#[test]
fn assign_symbol_slice() -> R<()> {
    let _ast = parse("a =: 1 2 3")?;
    Ok(())
}

#[test]
fn assign_symbol_idot() -> R<()> {
    let _ast = parse("a =: i. 2 3")?;
    Ok(())
}

#[test]
fn assign_symbol_slice_plus_slice() -> R<()> {
    let _ast = parse("a =: 1 2 3 + 1 2 3")?;
    Ok(())
}

#[test]
fn parse_empty() -> R<()> {
    let _ast = parse("")?;
    Ok(())
}
