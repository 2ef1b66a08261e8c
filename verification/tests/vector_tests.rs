use simple3d::vector::{Convert, Sqrt, Vector, Vector3};

#[test]
fn integer_square_roots_round_down() {
    assert_eq!(0_i32.sqrt(), 0);
    assert_eq!(1_i32.sqrt(), 1);
    assert_eq!(2_i32.sqrt(), 1);
    assert_eq!(3_i32.sqrt(), 1);
    assert_eq!(4_i32.sqrt(), 2);
    assert_eq!(99_i32.sqrt(), 9);
    assert_eq!(100_i32.sqrt(), 10);
    assert_eq!(i32::MAX.sqrt(), 46340);
    assert_eq!(0_i64.sqrt(), 0);
    assert_eq!(144_i64.sqrt(), 12);
    assert_eq!(i64::MAX.sqrt(), 3037000499);
}

#[test]
fn conversions_widen_exactly() {
    assert_eq!(Convert::<i64>::cvt(&-7_i32), -7_i64);
    let v: [i64; 2] = [i32::MIN, i32::MAX].cvt();
    assert_eq!(v, [i32::MIN as i64, i32::MAX as i64]);
}

#[test]
fn componentwise_arithmetic() {
    let a: [i32; 2] = [3, -4];
    let b: [i32; 2] = [1, 2];
    assert_eq!(a.neg(), [-3, 4]);
    assert_eq!(a.addv(&b), [4, -2]);
    assert_eq!(a.subv(&b), [2, -6]);
    assert_eq!(a.mulv(&b), [3, -8]);
    assert_eq!(a.adds(10), [13, 6]);
    assert_eq!(a.subs(1), [2, -5]);
    assert_eq!(a.muls(-2), [-6, 8]);
}

#[test]
fn division_rounds_toward_zero() {
    assert_eq!([7, -7].divs(2), [3, -3]);
    assert_eq!([7, -7].divs(-2), [-3, 3]);
    assert_eq!([9, -8].divv(&[2, 3]), [4, -2]);
}

#[test]
fn dot_and_magnitude() {
    assert_eq!([3, 4].dot(&[2, -1]), 2);
    assert_eq!([3, 4].magnitude(), 5);
    assert_eq!([1, 1].magnitude(), 1);
    assert_eq!([0, 0].magnitude(), 0);
}

#[test]
fn distance_roots_the_fourth_powers() {
    // the component differences are squared twice before summing, so the
    // distance of [3, 0] from the origin is the root of 81
    assert_eq!([3, 0].distance(&[0, 0]), 9);
    assert_eq!([1, 1].distance(&[0, 0]), 1);
}

#[test]
fn normalized_shrinks_to_unit_steps() {
    assert_eq!([5, 0].normalized(), [1, 0]);
    assert_eq!([0, -7].normalized(), [0, -1]);
    assert_eq!([3, 4].normalized(), [0, 0]);
}

#[test]
fn cross_product_of_axes() {
    let x: [i64; 3] = [1, 0, 0];
    let y: [i64; 3] = [0, 1, 0];
    assert_eq!(x.cross(&y), [0, 0, 1]);
    assert_eq!(y.cross(&x), [0, 0, -1]);
    assert_eq!([2, 3, 4].cross(&[5, 6, 7]), [-3, 6, -3]);
}

#[test]
fn triple_componentwise_arithmetic() {
    let a: [i64; 3] = [1, -2, 3];
    let b: [i64; 3] = [4, 5, -6];
    assert_eq!(a.neg(), [-1, 2, -3]);
    assert_eq!(a.addv(&b), [5, 3, -3]);
    assert_eq!(a.subv(&b), [-3, -7, 9]);
    assert_eq!(a.mulv(&b), [4, -10, -18]);
    assert_eq!(a.muls(10), [10, -20, 30]);
    assert_eq!([9, -9, 10].divs(3), [3, -3, 3]);
}

#[test]
fn triple_dot_and_magnitude() {
    assert_eq!([1, 2, 3].dot(&[4, -5, 6]), 12);
    assert_eq!([2, 3, 6].magnitude(), 7);
    assert_eq!([0, 0, -5].normalized(), [0, 0, -1]);
}
