use engine::decimal::{checked_add, checked_sub, lt, min, num_eq, Dec};

#[test]
fn new_checks_range() {
    assert!(Dec::new(79228162514264337593543950335, 28).is_some());
    assert!(Dec::new(79228162514264337593543950336, 0).is_none());
    assert!(Dec::new(-79228162514264337593543950336, 0).is_none());
    assert!(Dec::new(1, 29).is_none());
    let x = Dec::new(-125, 2).unwrap();
    assert_eq!(x.mantissa(), -125);
    assert_eq!(x.scale(), 2);
}

#[test]
fn addition_across_scales() {
    let a = Dec::new(15, 1).unwrap(); // 1.5
    let b = Dec::from_i64(2);
    let s = checked_add(a, b).unwrap();
    assert_eq!(s.mantissa(), 35);
    assert_eq!(s.scale(), 1);
    let t = checked_sub(b, a).unwrap(); // 0.5
    assert_eq!(t.mantissa(), 5);
    assert_eq!(t.scale(), 1);
}

#[test]
fn addition_overflow_is_none() {
    let max = Dec::new(79228162514264337593543950335, 0).unwrap();
    assert!(checked_add(max, max).is_none());
    let neg = Dec::new(-79228162514264337593543950335, 0).unwrap();
    assert!(checked_sub(neg, max).is_none());
}

#[test]
fn comparison_by_value() {
    let one = Dec::from_i64(1);
    let one_point_zero = Dec::new(10, 1).unwrap();
    assert!(num_eq(one, one_point_zero));
    assert!(!lt(one, one_point_zero));
    assert!(lt(Dec::new(5, 1).unwrap(), one));
    assert!(lt(Dec::from_i64(-3), Dec::zero()));
}

#[test]
fn min_prefers_first_on_tie() {
    let one = Dec::from_i64(1);
    let one_point_zero = Dec::new(10, 1).unwrap();
    let m = min(one_point_zero, one);
    assert_eq!(m.scale(), 1);
    let m2 = min(Dec::from_i64(3), Dec::from_i64(2));
    assert_eq!(m2.mantissa(), 2);
}

#[test]
fn equality_is_numeric() {
    assert!(Dec::from_i64(1) == Dec::new(10, 1).unwrap());
    assert!(Dec::new(150, 2).unwrap() == Dec::new(15, 1).unwrap());
    assert!(Dec::from_i64(1) != Dec::new(11, 1).unwrap());
}

#[test]
fn subtraction_across_scales_and_from_zero() {
    let a = Dec::new(125, 2).unwrap(); // 1.25
    let b = Dec::new(3, 1).unwrap(); // 0.3
    let c = checked_sub(a, b).unwrap();
    assert_eq!(c.mantissa(), 95);
    assert_eq!(c.scale(), 2);
    let z = checked_sub(Dec::zero(), b).unwrap();
    assert_eq!(z.mantissa(), -3);
    assert_eq!(z.scale(), 1);
    let k = checked_add(a, Dec::zero()).unwrap();
    assert_eq!(k.mantissa(), 125);
    assert_eq!(k.scale(), 2);
}
