use jlang::{A, JError, R};

fn sca() -> R<A> {
    let a = A::from_i(42)?;
    let A { m: 1, n: 1, .. } = a else { panic!("bad dims") };
    Ok(a)
}

fn arr2x3() -> R<A> {
    let a = A::zeroed(2, 3)?;
    let A { m: 2, n: 3, .. } = a else { panic!("bad dims") };
    Ok(a)
}

fn arr3x3() -> R<A> {
    let a = A::zeroed(3, 3)?;
    let A { m: 3, n: 3, .. } = a else { panic!("bad dims") };
    Ok(a)
}

#[test]
fn i00_for_scalar() -> R<()> {
    assert!(sca()?.index(0, 0).is_err());
    Ok(())
}

#[test]
fn i10_for_scalar() -> R<()> {
    assert!(sca()?.index(1, 0).is_err());
    Ok(())
}

#[test]
fn i01_for_scalar() -> R<()> {
    assert!(sca()?.index(0, 1).is_err());
    Ok(())
}

#[test]
fn i21_for_scalar() -> R<()> {
    assert!(sca()?.index(2, 1).is_err());
    Ok(())
}

#[test]
fn i12_for_scalar() -> R<()> {
    assert!(sca()?.index(1, 2).is_err());
    Ok(())
}

#[test]
fn i22_for_scalar() -> R<()> {
    assert!(sca()?.index(2, 2).is_err());
    Ok(())
}

#[test]
fn i11_for_scalar() -> R<()> {
    assert_eq!(sca()?.index(1, 1)?, 0);
    Ok(())
}

#[test]
fn i00_for_2x3() -> R<()> {
    assert!(arr2x3()?.index(0, 0).is_err());
    Ok(())
}

#[test]
fn i01_for_2x3() -> R<()> {
    assert!(arr2x3()?.index(0, 1).is_err());
    Ok(())
}

#[test]
fn i10_for_2x3() -> R<()> {
    assert!(arr2x3()?.index(1, 0).is_err());
    Ok(())
}

#[test]
fn i11_for_2x3() -> R<()> {
    assert_eq!(arr2x3()?.index(1, 1)?, 0);
    Ok(())
}

#[test]
fn i12_for_2x3() -> R<()> {
    assert_eq!(arr2x3()?.index(1, 2)?, 1);
    Ok(())
}

#[test]
fn i13_for_2x3() -> R<()> {
    assert_eq!(arr2x3()?.index(1, 3)?, 2);
    Ok(())
}

#[test]
fn i21_for_2x3() -> R<()> {
    assert_eq!(arr2x3()?.index(2, 1)?, 3);
    Ok(())
}

#[test]
fn i22_for_2x3() -> R<()> {
    assert_eq!(arr2x3()?.index(2, 2)?, 4);
    Ok(())
}

#[test]
fn i23_for_2x3() -> R<()> {
    assert_eq!(arr2x3()?.index(2, 3)?, 5);
    Ok(())
}

#[test]
fn i00_for_3x3() -> R<()> {
    assert!(arr3x3()?.index(0, 0).is_err());
    Ok(())
}

#[test]
fn i01_for_3x3() -> R<()> {
    assert!(arr3x3()?.index(0, 1).is_err());
    Ok(())
}

#[test]
fn i14_for_3x3() -> R<()> {
    assert!(arr3x3()?.index(1, 4).is_err());
    Ok(())
}

#[test]
fn i41_for_3x3() -> R<()> {
    assert!(arr3x3()?.index(4, 1).is_err());
    Ok(())
}

#[test]
fn i44_for_3x3() -> R<()> {
    assert!(arr3x3()?.index(4, 4).is_err());
    Ok(())
}

#[test]
fn i11_for_3x3() -> R<()> {
    assert_eq!(arr3x3()?.index(1, 1)?, 0);
    Ok(())
}

#[test]
fn i21_for_3x3() -> R<()> {
    assert_eq!(arr3x3()?.index(2, 1)?, 3);
    Ok(())
}

#[test]
fn i22_for_3x3() -> R<()> {
    assert_eq!(arr3x3()?.index(2, 2)?, 4);
    Ok(())
}

#[test]
fn i31_for_3x3() -> R<()> {
    assert_eq!(arr3x3()?.index(3, 1)?, 6);
    Ok(())
}

#[test]
fn i33_for_3x3() -> R<()> {
    assert_eq!(arr3x3()?.index(3, 3)?, 8);
    Ok(())
}

#[test]
fn scalar_get() -> R<()> {
    let a = A::from_i(42)?;
    assert_eq!(a.get(1, 1)?, 42);
    drop(a);
    Ok(())
}

#[test]
fn scalar_set() -> R<()> {
    let mut a = A::from_i(42)?;
    a.set(1, 1, 420)?;
    assert_eq!(a.get(1, 1)?, 420);
    drop(a);
    Ok(())
}

#[test]
fn scalars_can_be_a_slice() -> R<()> {
    let a = A::from_i(420)?;
    let _: &[u32] = a.as_slice()?;
    Ok(())
}

#[test]
fn from_empty() -> R<()> {
    let a: &[u32] = &[];
    let _ = A::from_slice(a)?;
    Ok(())
}

#[test]
fn from_one() -> R<()> {
    let a: &[u32] = &[42];
    let a = A::from_slice(a)?;
    assert_eq!(a.get(1, 1)?, 42);
    Ok(())
}

#[test]
fn from_three() -> R<()> {
    let a: &[u32] = &[7, 8, 9];
    let a = A::from_slice(a)?;
    assert_eq!(a.get(1, 1)?, 7);
    assert_eq!(a.get(1, 2)?, 8);
    assert_eq!(a.get(1, 3)?, 9);
    assert!(a.get(1, 0).is_err());
    assert!(a.get(1, 4).is_err());
    Ok(())
}

#[test]
fn eq_three() -> R<()> {
    let s: &[u32] = &[1, 2, 3];
    let a = A::from_slice(s)?;
    assert_eq!(a, s);
    Ok(())
}

#[test]
fn neq_three() -> R<()> {
    let (s, o): (&[u32], &[u32]) = (&[1, 2], &[2, 3]);
    let a = A::from_slice(s)?;
    assert_ne!(a, o);
    Ok(())
}

#[test]
fn neq_prefix() -> R<()> {
    let (s, o): (&[u32], &[u32]) = (&[1, 2], &[1, 2, 3]);
    let a = A::from_slice(s)?;
    assert_ne!(a, o);
    Ok(())
}

#[test]
fn column_slice_can_be_a_slice() -> R<()> {
    let a: &[u32] = &[7, 8, 9];
    let a = A::from_slice(a)?.m_trans()?;
    let A { m: 3, n: 1, .. } = a else { panic!("bad dims") };
    assert_eq!(a.as_slice()?, &[7, 8, 9]);
    Ok(())
}

#[test]
fn index_error_names_the_position() {
    let a = A::zeroed(2, 3).unwrap();
    assert_eq!(a.index(3, 1), Err(JError::OutOfBounds { i: 3, j: 1, m: 2, n: 3 }));
}
