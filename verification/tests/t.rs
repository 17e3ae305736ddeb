use jlang::{eval, A, JError, R, ST};

/// Evaluates an input line with an empty symbol table, expecting a value.
fn eval_s(i: &str) -> R<A> {
    eval(i, &mut ST::default()).map(|i| i.unwrap())
}

#[test]
fn add_two_consts() -> R<()> {
    let a = eval_s("1 + 2")?;
    let A { m: 1, n: 1, .. } = a else { panic!("bad dims") };
    assert_eq!(a.as_i()?, 3);
    Ok(())
}

#[test]
fn add_const_to_arr() -> R<()> {
    let a = eval_s("1 + 1 2 3")?;
    let A { m: 1, n: 3, .. } = a else { panic!("bad dims") };
    assert_eq!(a.as_slice()?, &[2, 3, 4]);
    Ok(())
}

#[test]
fn add_arr_to_const() -> R<()> {
    let a = eval_s("1 2 3 + 1")?;
    let A { m: 1, n: 3, .. } = a else { panic!("bad dims") };
    assert_eq!(a.as_slice()?, &[2, 3, 4]);
    Ok(())
}

#[test]
fn add_arr_to_arr() -> R<()> {
    let a = eval_s("1 2 3 + 4 5 6")?;
    let A { m: 1, n: 3, .. } = a else { panic!("bad dims") };
    assert_eq!(a.as_slice()?, &[5, 7, 9]);
    Ok(())
}

#[test]
fn add_arr_to_rotated_matrix() -> R<()> {
    let a = eval_s("1 2 3 + i. 3 2")?;
    let A { m: 3, n: 2, .. } = a else { panic!("bad dims") };
    assert_eq!(a.into_matrix()?, &[&[1, 2], &[4, 5], &[7, 8]]);
    Ok(())
}

#[test]
fn add_slice_to_rotated_slice() -> R<()> {
    let a = eval_s("1 2 3 4 + i. 4 1")?;
    let A { m: 4, n: 1, .. } = a else { panic!("bad dims") };
    assert_eq!(a.into_matrix()?, &[&[1], &[3], &[5], &[7]]);
    Ok(())
}

#[test]
fn other_add_slice_to_rotated_slice_is_length_error() -> R<()> {
    assert!(eval_s("i. 4 1 + 1 2 3 4").is_err());
    Ok(())
}

#[test]
fn tally_scalar() -> R<()> {
    let a = eval_s("# 1")?;
    let A { m: 1, n: 1, .. } = a else { panic!("bad dims") };
    assert_eq!(a.as_slice()?, &[1]);
    Ok(())
}

#[test]
fn tally_1x3() -> R<()> {
    let a = eval_s("# 1 2 3")?;
    let A { m: 1, n: 1, .. } = a else { panic!("bad dims") };
    assert_eq!(a.as_slice()?, &[3]);
    Ok(())
}

#[test]
fn tally_3x3() -> R<()> {
    let a = eval_s("# i. 3 3")?;
    let A { m: 1, n: 1, .. } = a else { panic!("bad dims") };
    assert_eq!(a.as_slice()?, &[9]);
    Ok(())
}

#[test]
fn idot_3() -> R<()> {
    let a = eval_s("i. 3")?;
    assert_eq!(a.m, 1);
    assert_eq!(a.n, 3);
    assert_eq!(a.as_slice()?, &[0, 1, 2]);
    Ok(())
}

#[test]
fn idot_2_3() -> R<()> {
    let a = eval_s("i. 2 3")?;
    assert_eq!(a.m, 2);
    assert_eq!(a.n, 3);
    let o: &[&[u32]] = &[&[0, 1, 2], &[3, 4, 5]];
    assert_eq!(a.into_matrix()?, o);
    assert_eq!(a, o);
    Ok(())
}

#[test]
fn idot_3_2() -> R<()> {
    let a = eval_s("i. 3 2")?;
    assert_eq!(a.m, 3);
    assert_eq!(a.n, 2);
    let o: &[&[u32]] = &[&[0, 1], &[2, 3], &[4, 5]];
    assert_eq!(a.into_matrix()?, o);
    assert_eq!(a, o);
    Ok(())
}

#[test]
fn shape_idot_2_3() -> R<()> {
    let a = eval_s("$ i. 2 3")?;
    assert_eq!(a.m, 1);
    assert_eq!(a.n, 2);
    assert_eq!(a.get(1, 1)?, 2);
    assert_eq!(a.get(1, 2)?, 3);
    Ok(())
}

#[test]
fn shape_idot_3_2() -> R<()> {
    let a = eval_s("$ i. 3 2")?;
    assert_eq!(a.m, 1);
    assert_eq!(a.n, 2);
    assert_eq!(a.get(1, 1)?, 3);
    assert_eq!(a.get(1, 2)?, 2);
    Ok(())
}

#[test]
fn trans_scalar() -> R<()> {
    let a = eval_s("|: 3")?;
    assert_eq!(a.m, 1);
    assert_eq!(a.n, 1);
    assert_eq!(a.get(1, 1)?, 3);
    Ok(())
}

#[test]
fn trans_idot_2_3() -> R<()> {
    let a = eval_s("|: i. 2 3")?;
    assert_eq!(a.m, 3);
    assert_eq!(a.n, 2);
    let o: &[&[u32]] = &[&[0, 3], &[1, 4], &[2, 5]];
    assert_eq!(a.into_matrix()?, o);
    assert_eq!(a, o);
    Ok(())
}

#[test]
fn mult_two_scalars() -> R<()> {
    let a = eval_s("2 * 3")?;
    let i = a.as_i()?;
    assert_eq!(i, 6);
    Ok(())
}

#[test]
fn mult_slice_by_scalar() -> R<()> {
    let a = eval_s("1 2 3 * 3")?;
    assert_eq!(a.as_slice()?, &[3, 6, 9]);
    Ok(())
}

#[test]
fn mult_scalar_by_slice() -> R<()> {
    let a = eval_s("3 * 1 2 3")?;
    assert_eq!(a.as_slice()?, &[3, 6, 9]);
    Ok(())
}

#[test]
fn mult_slice_by_slice() -> R<()> {
    let a = eval_s("2 4 6 * 1 2 3")?;
    assert_eq!(a.as_slice()?, &[2, 8, 18]);
    Ok(())
}

#[test]
fn mult_slice_by_rotated_slice() -> R<()> {
    let a = eval_s("1 2 3 * i. 3 2")?;
    let A { m: 3, n: 2, .. } = a else { panic!("bad dims") };
    assert_eq!(a.into_matrix()?, &[&[0, 1], &[4, 6], &[12, 15]]);
    Ok(())
}

#[test]
fn mult_slice_to_rotated_slice() -> R<()> {
    let a = eval_s("1 2 3 4 * i. 4 1")?;
    let A { m: 4, n: 1, .. } = a else { panic!("bad dims") };
    assert_eq!(a.into_matrix()?, &[&[0], &[2], &[6], &[12]]);
    Ok(())
}

#[test]
fn assign_and_get_i() -> R<()> {
    let mut st = ST::default();
    let _a = eval("a =: 3", &mut st)?;
    assert_eq!(st.get_s("a").unwrap().as_i().unwrap(), 3);
    Ok(())
}

#[test]
fn assign_and_get_slice() -> R<()> {
    let mut st = ST::default();
    let _a = eval("a =: 3 2 1", &mut st)?;
    assert_eq!(st.get_s("a").unwrap().as_slice().unwrap(), &[3, 2, 1]);
    Ok(())
}

#[test]
fn assign_and_get_expr() -> R<()> {
    let mut st = ST::default();
    let _a = eval("a =: 1 3 + 2 4", &mut st)?;
    assert_eq!(st.get_s("a").unwrap().as_slice().unwrap(), &[3, 7]);
    Ok(())
}

#[test]
fn slice_times_transposed_idot_2_3() -> R<()> {
    let a = eval_s("1 2 3 * |: i. 2 3")?;
    assert_eq!(a.into_matrix()?, &[&[0, 3], &[2, 8], &[6, 15]]);
    Ok(())
}

#[test]
fn display_scalar() -> R<()> {
    let a = A::from_i(666)?;
    assert_eq!(a.to_string(), "666\n");
    Ok(())
}

#[test]
fn display_slice() -> R<()> {
    let a: &[u32] = &[7, 8, 9];
    let a = A::from_slice(a)?;
    assert_eq!(a.to_string(), "7 8 9\n");
    Ok(())
}

#[test]
fn display_matrix() -> R<()> {
    let a = eval_s("i. 3 3")?;
    assert_eq!(a.to_string(), "0 1 2\n3 4 5\n6 7 8\n");
    Ok(())
}

#[test]
fn sum_one_number() -> R<()> {
    let a = eval_s("+ / 1")?;
    let i = a.as_i()?;
    assert_eq!(i, 1);
    Ok(())
}

#[test]
fn sum_two_numbers() -> R<()> {
    let a = eval_s("+ / 1 8")?;
    let i = a.as_i()?;
    assert_eq!(i, 9);
    Ok(())
}

#[test]
fn sum_a_sequence() -> R<()> {
    let a = eval_s("+ / i. 4")?;
    let i = a.as_i()?;
    assert_eq!(i, 6);
    Ok(())
}

#[test]
fn product_of_one_to_four() -> R<()> {
    let a = eval_s("* / 1 + i. 4")?;
    let i = a.as_i()?;
    assert_eq!(i, 24);
    Ok(())
}

#[test]
fn scan_of_sum() -> R<()> {
    let a = eval_s("+ \\ 1 + i. 5")?;
    assert_eq!(a.m, 5);
    assert_eq!(a.n, 5);
    assert_eq!(
        a.into_matrix()?,
        &[
            &[1, 0, 0, 0, 0],
            &[1, 2, 0, 0, 0],
            &[1, 2, 3, 0, 0],
            &[1, 2, 3, 4, 0],
            &[1, 2, 3, 4, 5],
        ]
    );
    Ok(())
}

#[test]
fn undefined_symbol_is_an_error() {
    assert_eq!(eval_s("a + 1").err(), Some(JError::UndefinedSymbol));
}
