use complex_polynomials::complex::Complex;
use complex_polynomials::error::AlgebraError;
use complex_polynomials::polynomial::Polynomial;

fn poly(values: &[(i16, i16)]) -> Polynomial {
    Polynomial::new(values.iter().map(|&(re, im)| Complex::new(re, im)).collect())
}

#[test]
fn complex_test_complex_arithmetic() {
    let c1 = Complex::new(2, 5);
    let c2 = Complex::new(-1, 10);

    assert_eq!(Complex::new(1, 15), c1.add(&c2));
    assert_eq!(Complex::new(-52, 15), c1.mul(&c2));

    let c1 = Complex::new(0, 5);
    let c2 = Complex::new(3, 4);

    assert_eq!(Complex::new(3, 9), c1.add(&c2));
    assert_eq!(Complex::new(-20, 15), c1.mul(&c2));

    let c1 = Complex::new(0, 0);
    let c2 = Complex::new(-1, -1);

    assert_eq!(Complex::new(0, 0), c1.mul(&c2));
}

#[test]
fn test_polynomials_construction() {
    let p = Polynomial::new(vec![Complex::new(0, 1)]);
    assert_eq!(0, p.degree);

    let p = Polynomial::new(vec![Complex::new(0, 1), Complex::new(3, -1)]);
    assert_eq!(1, p.degree);
}

#[test]
fn test_polynomials_add() {
    let lhs = poly(&[(3, 0), (1, 0)]);
    let rhs = poly(&[(1, 0), (-1, 0)]);

    assert_eq!(poly(&[(4, 0)]), Polynomial::add(&lhs, &rhs));
    assert_eq!(poly(&[(4, 0)]), Polynomial::add_in_ring(&lhs, &rhs, 1));

    let lhs = poly(&[(3, -2), (1, -3)]);
    let rhs = poly(&[(1, 4), (-1, 3)]);

    assert_eq!(poly(&[(4, 2)]), Polynomial::add(&lhs, &rhs));
    assert_eq!(poly(&[(4, 2)]), Polynomial::add_in_ring(&lhs, &rhs, 2));
}

#[test]
fn test_euclidean_division() {
    // p = x5 - x2 + 1
    let p = poly(&[(1, 0), (0, 0), (-1, 0), (0, 0), (0, 0), (1, 0)]);

    // p / (x2 - 1): quotient x3 + x - 1, remainder x
    let res = Polynomial::euclidean_division(&p, &poly(&[(-1, 0), (0, 0), (1, 0)]));
    assert_eq!(
        Ok((poly(&[(-1, 0), (1, 0), (0, 0), (1, 0)]), poly(&[(0, 0), (1, 0)]))),
        res,
    );

    // p / (x3 - 1): quotient x2, remainder 1
    let res = Polynomial::euclidean_division(&p, &poly(&[(-1, 0), (0, 0), (0, 0), (1, 0)]));
    assert_eq!(
        Ok((poly(&[(0, 0), (0, 0), (1, 0)]), poly(&[(1, 0)]))),
        res,
    );
}

#[test]
fn test_polynomials_reduce() {
    let p = poly(&[(0, 0), (-1, 0), (-16, 0), (18, 0), (16, 0), (1, 0), (1, 0)]);
    assert_eq!(poly(&[(16, 0), (0, 0), (-15, 0), (18, 0)]), p.reduce_to(4));

    let p = poly(&[(1, 0), (0, 0), (-1, 0), (0, 0), (2, 0), (1, 0)]);
    assert_eq!(poly(&[(3, 0), (1, 0), (-1, 0)]), p.reduce_to(4));
    assert_eq!(poly(&[(1, 0), (2, 0)]), p.reduce_to(3));
    assert_eq!(poly(&[(2, 0), (1, 0)]), p.reduce_to(2));
}

#[test]
fn test_polynomials_mul() {
    let lhs = poly(&[(3, 0), (1, 0)]);
    let rhs = poly(&[(1, 0), (-1, 0)]);
    assert_eq!(poly(&[(2, 0), (-2, 0)]), Polynomial::mul_in_ring(&lhs, &rhs, 2));

    let lhs = poly(&[(-3, 0), (0, 0), (3, 0)]);
    let rhs = poly(&[(0, 0), (2, 0), (-1, 0)]);

    let res_ring4 = poly(&[(-3, 0), (-6, 0), (3, 0), (6, 0)]);
    assert_eq!(res_ring4, Polynomial::mul_in_ring(&lhs, &rhs, 4));

    let res_ring3 = poly(&[(6, 0), (-9, 0), (3, 0)]);
    assert_eq!(res_ring3, Polynomial::mul_in_ring(&lhs, &rhs, 3));

    assert_eq!(Polynomial::zero(), Polynomial::mul_in_ring(&lhs, &rhs, 2));
    assert_eq!(Polynomial::zero(), Polynomial::mul_in_ring(&lhs, &rhs, 1));
}

#[test]
fn add_trims_to_a_constant() {
    let p = poly(&[(3, 0), (1, 0)]);
    let q = poly(&[(1, 0), (-1, 0)]);
    let sum = Polynomial::add(&p, &q);
    assert_eq!(0, sum.degree);
    assert_eq!(vec![Complex::new(4, 0)], sum.coefficients);
    assert_eq!(sum, Polynomial::add(&q, &p));
}

#[test]
fn add_zero_gives_trimmed_operand() {
    let p = poly(&[(1, 2), (0, 0), (0, 0)]);
    assert_eq!(poly(&[(1, 2)]), Polynomial::add(&p, &Polynomial::zero()));
    assert_eq!(p.clone().trim(), Polynomial::add(&Polynomial::zero(), &p));
}

#[test]
fn mul_commutes_and_zero_absorbs() {
    let p = poly(&[(1, 2), (-3, 1), (0, 4)]);
    let q = poly(&[(2, -1), (5, 0)]);
    assert_eq!(Polynomial::mul(&p, &q), Polynomial::mul(&q, &p));
    // (1+2i)(2-i) = 4 + 3i
    assert_eq!(Complex::new(4, 3), Polynomial::mul(&p, &q).coefficients[0]);
    assert_eq!(Polynomial::zero(), Polynomial::mul(&p, &Polynomial::zero()));
    assert_eq!(Polynomial::zero(), Polynomial::mul(&Polynomial::zero(), &q));
}

#[test]
fn reduce_below_ring_is_identity() {
    let p = poly(&[(1, 0), (2, 3), (0, 0)]);
    assert_eq!(p, p.reduce_to(3));
    assert_eq!(p, p.reduce_to(10));
    // ring 0 divides by the constant 1: everything reduces to zero
    assert_eq!(Polynomial::zero(), p.reduce_to(0));
}

#[test]
fn division_remainder_has_lower_degree() {
    let p = poly(&[(4, 1), (-2, 0), (7, 3), (1, 1), (3, 0)]);
    let d = poly(&[(1, 0), (0, 0), (1, 0)]);
    let (q, r) = Polynomial::euclidean_division(&p, &d).unwrap();
    assert!(r.degree < d.degree);
    // q * d + r == p (exact here: the divisor is monic with small integer parts)
    let back = Polynomial::add(&Polynomial::mul(&q, &d), &r);
    assert_eq!(p, back);
}

#[test]
fn division_by_non_monic_uses_true_division() {
    // (2x^2 + 4x + 6) / (2x) = x + 2, remainder 6
    let p = poly(&[(6, 0), (4, 0), (2, 0)]);
    let d = poly(&[(0, 0), (2, 0)]);
    let (q, r) = Polynomial::euclidean_division(&p, &d).unwrap();
    assert_eq!(poly(&[(2, 0), (1, 0)]), q);
    assert_eq!(poly(&[(6, 0)]), r);
}

#[test]
fn division_of_lower_degree_numerator() {
    let p = poly(&[(1, 1), (2, 0)]);
    let d = poly(&[(1, 0), (0, 0), (1, 0)]);
    let (q, r) = Polynomial::euclidean_division(&p, &d).unwrap();
    assert_eq!(Polynomial::zero(), q);
    assert_eq!(p, r);
}

#[test]
fn division_by_zero_fails() {
    let p = poly(&[(1, 0), (1, 0)]);
    assert_eq!(
        Err(AlgebraError::DivisionByZero),
        Polynomial::euclidean_division(&p, &Polynomial::zero())
    );
    assert_eq!(
        Err(AlgebraError::DivisionByZero),
        Polynomial::euclidean_division(&p, &poly(&[(0, 0), (0, 0), (0, 0)]))
    );
}

#[test]
fn division_trims_the_denominator() {
    // x^2 - 1 stored with a trailing zero still divides as a degree-2 polynomial
    let p = poly(&[(1, 0), (0, 0), (-1, 0), (0, 0), (0, 0), (1, 0)]);
    let d = poly(&[(-1, 0), (0, 0), (1, 0), (0, 0)]);
    let (q, r) = Polynomial::euclidean_division(&p, &d).unwrap();
    assert_eq!(poly(&[(-1, 0), (1, 0), (0, 0), (1, 0)]), q);
    assert_eq!(poly(&[(0, 0), (1, 0)]), r);
}

#[test]
fn ring_results_stay_below_ring_degree() {
    let p = poly(&[(1, 0), (2, 0), (3, 0), (4, 0), (5, 0)]);
    let q = poly(&[(0, 1), (1, 1), (2, 0)]);
    for ring in 1..6 {
        assert!(Polynomial::add_in_ring(&p, &q, ring).degree < ring);
        assert!(Polynomial::mul_in_ring(&p, &q, ring).degree < ring);
    }
}

#[test]
fn ring_reduction_folds_coefficients_cyclically() {
    // 1 + 2x + 3x^2 + 4x^3 + 5x^4 modulo x^2 - 1 is (1 + 3 + 5) + (2 + 4)x
    let p = poly(&[(1, 0), (2, 0), (3, 0), (4, 0), (5, 0)]);
    assert_eq!(poly(&[(9, 0), (6, 0)]), p.reduce_to(2));
}

#[test]
fn with_degree_checks_the_count() {
    let coefficients = vec![Complex::new(1, 0), Complex::new(2, 0)];
    let p = Polynomial::with_degree(1, coefficients.clone()).unwrap();
    assert_eq!(Polynomial::new(coefficients.clone()), p);
    assert_eq!(
        Err(AlgebraError::InvalidDegree),
        Polynomial::with_degree(2, coefficients)
    );
}

#[test]
fn new_of_empty_is_zero() {
    assert_eq!(Polynomial::zero(), Polynomial::new(vec![]));
    assert_eq!(0, Polynomial::zero().degree);
}

#[test]
fn neg_negates_every_coefficient() {
    let p = poly(&[(1, -2), (0, 0), (3, 0)]);
    assert_eq!(poly(&[(-1, 2), (0, 0), (-3, 0)]), p.neg());
}

#[test]
fn trim_keeps_one_coefficient() {
    let p = poly(&[(0, 0), (0, 0), (0, 0)]);
    assert_eq!(Polynomial::zero(), p.trim());
    let p = poly(&[(0, 0), (1, 0), (0, 0)]);
    assert_eq!(1, p.trim().degree);
}

#[test]
fn render_of_x_squared_minus_one() {
    let p = poly(&[(-1, 0), (0, 0), (1, 0)]);
    assert_eq!("(1)X2 + (-1)", p.render());
}

#[test]
fn render_forms() {
    assert_eq!("0", Polynomial::zero().render());
    assert_eq!("0", poly(&[(0, 0), (0, 0)]).render());
    assert_eq!("(2 + -3i)X + (1i)", poly(&[(0, 1), (2, -3)]).render());
    assert_eq!("(5)X12", {
        let mut values = vec![(0, 0); 12];
        values.push((5, 0));
        poly(&values)
    }
    .render());
}
