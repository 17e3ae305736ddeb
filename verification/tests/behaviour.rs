use jlang::{eval, lex, parse, A, JError, R, ST, SY, T, D, M};

fn eval_s(i: &str) -> R<A> {
    eval(i, &mut ST::default()).map(|i| i.unwrap())
}

fn rows(i: &str) -> Vec<Vec<u32>> {
    let a = eval_s(i).unwrap();
    a.into_matrix().unwrap().iter().map(|r| r.to_vec()).collect()
}

fn err(i: &str) -> JError {
    eval(i, &mut ST::default()).err().unwrap()
}

#[test]
fn transpose_twice_gives_back_the_array() {
    assert_eq!(rows("|: |: i. 2 3"), rows("i. 2 3"));
}

#[test]
fn shape_of_transpose_is_turned_around() {
    assert_eq!(rows("$ |: i. 2 3"), vec![vec![3, 2]]);
}

#[test]
fn shape_and_tally_of_idot() {
    assert_eq!(rows("$ i. 4 5"), vec![vec![4, 5]]);
    assert_eq!(eval_s("# i. 4 5").unwrap().as_i().unwrap(), 20);
}

#[test]
fn idot_counts_from_zero() {
    assert_eq!(rows("i. 4"), vec![vec![0, 1, 2, 3]]);
}

#[test]
fn arithmetic_commutes() {
    assert_eq!(rows("2 + 1 2 3"), rows("1 2 3 + 2"));
    let mut st = ST::default();
    eval("t =: i. 3 2", &mut st).unwrap();
    let l = eval("1 2 3 * t", &mut st).unwrap().unwrap();
    let r = eval("t * 1 2 3", &mut st).unwrap().unwrap();
    assert_eq!(l.vals(), r.vals());
    assert_eq!((l.m, l.n), (r.m, r.n));
    assert_eq!(rows("4 5 * 6 7"), vec![vec![24, 35]]);
}

#[test]
fn rotated_operands_take_the_right_shape() {
    assert_eq!(rows("1 2 3 4 + |: 1 2 3 4"), vec![vec![2], vec![4], vec![6], vec![8]]);
    let mut st = ST::default();
    eval("c =: |: 1 2 3 4", &mut st).unwrap();
    let a = eval("c + 1 2 3 4", &mut st).unwrap().unwrap();
    assert_eq!((a.m, a.n), (1, 4));
    assert_eq!(a.vals(), vec![2, 4, 6, 8]);
}

#[test]
fn blank_line_is_nothing() {
    assert!(parse("  \t ").unwrap().is_none());
    assert!(eval(" ", &mut ST::default()).unwrap().is_none());
}

#[test]
fn insert_is_the_verb_between_items() {
    assert_eq!(eval_s("+ / 1 2 3").unwrap().as_i().unwrap(), 6);
    assert_eq!(eval_s("1 + 2 + 3").unwrap().as_i().unwrap(), 6);
    assert_eq!(eval_s("[ / 7 8 9").unwrap().as_i().unwrap(), 7);
    assert_eq!(eval_s("] / 7 8 9").unwrap().as_i().unwrap(), 9);
}

#[test]
fn insert_over_rows_folds_columns() {
    assert_eq!(rows("+ / i. 2 3"), vec![vec![3, 5, 7]]);
}

#[test]
fn insert_over_nothing_is_the_identity() {
    assert_eq!(eval_s("+ / i. 0").unwrap().as_i().unwrap(), 0);
    assert_eq!(eval_s("* / i. 0").unwrap().as_i().unwrap(), 1);
    assert_eq!(err("[ / i. 0"), JError::Domain);
}

#[test]
fn prefix_applies_the_verb_monadically() {
    assert_eq!(rows("* \\ 0 5"), vec![vec![0, 0], vec![0, 1]]);
}

#[test]
fn table_of_two_lists() {
    assert_eq!(rows("1 2 + / 10 20 30"), vec![vec![11, 21, 31], vec![12, 22, 32]]);
}

#[test]
fn infix_of_a_list() {
    assert_eq!(rows("2 ] \\ 1 2 3 4"), vec![vec![1, 2], vec![2, 3], vec![3, 4]]);
    assert_eq!(rows("5 ] \\ 1 2 3 4").len(), 0);
}

#[test]
fn increment() {
    assert_eq!(rows(">: 1 2"), vec![vec![2, 3]]);
    assert_eq!(err(">: 4294967295"), JError::Overflow);
}

#[test]
fn verbs_group_from_the_right() {
    assert_eq!(eval_s("2 * 3 + 1").unwrap().as_i().unwrap(), 8);
}

#[test]
fn evaluation_without_assignment_keeps_variables() {
    let mut st = ST::default();
    eval("a =: 5", &mut st).unwrap();
    eval("a + 1", &mut st).unwrap();
    assert_eq!(st.get_s("a").unwrap().as_i().unwrap(), 5);
    assert_eq!(eval("a * a", &mut st).unwrap().unwrap().as_i().unwrap(), 25);
}

#[test]
fn assignment_replaces_the_value() {
    let mut st = ST::default();
    eval("a =: 5", &mut st).unwrap();
    eval("a =: a + 1", &mut st).unwrap();
    assert_eq!(st.get_s("a").unwrap().as_i().unwrap(), 6);
    assert!(st.get_s("b").is_none());
}

#[test]
fn each_error() {
    assert_eq!(err("1 2 + 1 2 3"), JError::Length);
    assert_eq!(err("i. 1 2 3"), JError::IdotUnsupported { m: 1, n: 3 });
    assert_eq!(err("4294967295 + 1"), JError::Overflow);
    assert_eq!(err("+ \\ i. 2 2"), JError::Rank);
    assert_eq!(err("# A =: 1"), JError::SymbolStart);
    assert_eq!(err("# 3 =: 1"), JError::AssignNotVariable);
    assert_eq!(err("#"), JError::NoOperand(M::Tally));
    assert_eq!(err("+"), JError::NoRhs(D::Plus));
    assert_eq!(err("+ 1"), JError::NoLhs);
    assert_eq!(err("a =:"), JError::AssignNoExpr);
    assert_eq!(err("=: 1"), JError::AssignNotVariable);
    assert_eq!(err("/ 1"), JError::AdverbNeedsVerb);
    assert_eq!(err("1 @ 2"), JError::Unrecognized);
    assert_eq!(err("1 # 2"), JError::TrailingOperands);
    assert_eq!(err("b"), JError::UndefinedSymbol);
    assert_eq!(err("# a =: 1"), JError::NoValue);
    assert_eq!(err("2 + / i. 2 2"), JError::Rank);
    assert_eq!(err("1 2 ] \\ 1 2"), JError::NotAScalar);
    let long = format!("{}1", "# ".repeat(200));
    assert_eq!(err(&long), JError::MaxIterations);
    assert_eq!(A::new(usize::MAX, 2).err(), Some(JError::Layout));
    assert_eq!(eval_s("1 2").unwrap().as_i().err(), Some(JError::NotAScalar));
    assert_eq!(eval_s("i. 2 2").unwrap().as_slice().err(), Some(JError::NotASlice));
    assert_eq!(A::zeroed(3, 0).unwrap().into_matrix().err(), Some(JError::OutOfBounds { i: 1, j: 1, m: 3, n: 0 }));
}

#[test]
fn symbol_errors() {
    assert_eq!(SY::from_str("").err(), Some(JError::EmptySymbol));
    assert_eq!(SY::from_str("_a").err(), Some(JError::SymbolStart));
    assert_eq!(SY::from_str("aB").err(), Some(JError::SymbolChars));
}

#[test]
fn max_iterations_boundary() {
    let ok = format!("{}1", "# ".repeat(128));
    assert!(eval_s(&ok).is_ok());
    let too_long = format!("{}1", "# ".repeat(129));
    assert_eq!(err(&too_long), JError::MaxIterations);
}

#[test]
fn numbers_take_an_optional_plus() {
    assert_eq!(lex("+5 007\t8").unwrap(), vec![T::I(5), T::I(7), T::I(8)]);
    assert_eq!(lex("4294967296 -1 +").unwrap(), vec![
        T::V(String::from("4294967296")),
        T::V(String::from("-1")),
        T::V(String::from("+")),
    ]);
}

#[test]
fn display_rows() {
    assert_eq!(eval_s("|: i. 2 3").unwrap().to_string(), "0 3\n1 4\n2 5\n");
    assert_eq!(A::zeroed(0, 3).unwrap().to_string(), "");
}

#[test]
fn iter_and_vals_go_row_by_row() {
    let a = eval_s("i. 2 2").unwrap();
    assert_eq!(a.iter(), vec![(1, 1), (1, 2), (2, 1), (2, 2)]);
    assert_eq!(a.vals(), vec![0, 1, 2, 3]);
}

#[test]
fn init_with_fills_by_position() {
    let a = A::new(2, 2).unwrap().init_with(|i, j| Ok((10 * i + j) as u32)).unwrap();
    assert_eq!(a.vals(), vec![11, 12, 21, 22]);
    let e = A::new(2, 2).unwrap().init_with(|i, _| if i == 2 { Err(JError::Domain) } else { Ok(0) });
    assert_eq!(e.err(), Some(JError::Domain));
}

#[test]
fn deep_copy_is_equal() {
    let a = eval_s("i. 2 3").unwrap();
    let c = a.deep_copy().unwrap();
    assert_eq!(a.vals(), c.vals());
    assert_eq!((c.m, c.n), (2, 3));
}

#[test]
fn verb_functions() {
    assert_eq!(D::Plus.f(2, 3), Ok(5));
    assert_eq!(D::Mul.f(65536, 65536), Err(JError::Overflow));
    assert_eq!(D::Left.f(2, 3), Ok(2));
    assert_eq!(D::Right.f(2, 3), Ok(3));
}

#[test]
fn sum_of_one_to_a_hundred() {
    assert_eq!(rows("1 + i. 4"), vec![vec![1, 2, 3, 4]]);
    assert_eq!(eval_s("+ / 1 + i. 100").unwrap().as_i().unwrap(), 5050);
}

#[test]
fn dyadic_left_and_right() {
    assert_eq!(eval_s("1 ] 2").unwrap().as_i().unwrap(), 2);
    assert_eq!(eval_s("1 [ 2").unwrap().as_i().unwrap(), 1);
    assert_eq!(rows("1 2 ] 3 4 5"), vec![vec![3, 4, 5]]);
    assert_eq!(rows("1 2 [ 3 4 5"), vec![vec![1, 2]]);
    assert_eq!(eval_s("] 2").unwrap().as_i().unwrap(), 2);
    assert_eq!(eval_s("# ] 1 2 3").unwrap().as_i().unwrap(), 3);
    let mut st = ST::default();
    eval("a =: 7", &mut st).unwrap();
    eval("b =: 8", &mut st).unwrap();
    assert_eq!(eval("a ] b", &mut st).unwrap().unwrap().as_i().unwrap(), 8);
    assert_eq!(eval("a [ b", &mut st).unwrap().unwrap().as_i().unwrap(), 7);
}
