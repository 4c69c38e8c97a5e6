use complex_polynomials::complex::Complex;

#[test]
fn division_is_true_complex_division() {
    // 1 / 2 = 0.5
    let half = Complex::new(1, 0).div(&Complex::new(2, 0));
    assert_eq!(Complex::from_fixed(32768, 0), half);
    // i / (1 + i) = (1 + i) / 2
    let q = Complex::new(0, 1).div(&Complex::new(1, 1));
    assert_eq!(Complex::from_fixed(32768, 32768), q);
    // (-52 + 15i) / (-1 + 10i) = 2 + 5i
    assert_eq!(
        Complex::new(2, 5),
        Complex::new(-52, 15).div(&Complex::new(-1, 10))
    );
}

#[test]
fn products_round_down() {
    // 0.5 * 0.5 = 0.25 exactly; smallest positive value squared rounds down to 0
    let half = Complex::from_fixed(32768, 0);
    assert_eq!(Complex::from_fixed(16384, 0), half.mul(&half));
    let tiny = Complex::from_fixed(1, 0);
    assert_eq!(Complex::zero(), tiny.mul(&tiny));
    let minus_tiny = Complex::from_fixed(-1, 0);
    assert_eq!(Complex::from_fixed(-1, 0), minus_tiny.mul(&Complex::from_fixed(1, 0)));
}

#[test]
fn sums_wrap_around() {
    let max = Complex::from_fixed(i32::MAX, 0);
    assert_eq!(Complex::from_fixed(i32::MIN, 0), max.add(&Complex::from_fixed(1, 0)));
    assert_eq!(Complex::from_fixed(i32::MIN, 0), Complex::from_fixed(i32::MIN, 0).neg());
}

#[test]
fn neg_and_zero() {
    assert_eq!(Complex::new(-3, 4), Complex::new(3, -4).neg());
    assert!(Complex::zero().is_zero_exec());
    assert!(!Complex::new(0, 1).is_zero_exec());
    assert_eq!(Complex::new(7, -2), Complex::new(7, -2).add(&Complex::zero()));
}

#[test]
fn render_exact_decimals() {
    assert_eq!("0", Complex::zero().render());
    assert_eq!("-52 + 15i", Complex::new(-52, 15).render());
    assert_eq!("-3i", Complex::new(0, -3).render());
    assert_eq!("1.5", Complex::from_fixed(98304, 0).render());
    assert_eq!("-0.25", Complex::from_fixed(-16384, 0).render());
    assert_eq!("0.100006103515625", Complex::from_fixed(6554, 0).render());
    assert_eq!("-32768", Complex::from_fixed(i32::MIN, 0).render());
}
