use complex_polynomials::complex::Complex;
use complex_polynomials::error::AlgebraError;
use complex_polynomials::matrix::Matrix;
use complex_polynomials::polynomial::Polynomial;

fn poly(values: &[(i16, i16)]) -> Polynomial {
    Polynomial::new(values.iter().map(|&(re, im)| Complex::new(re, im)).collect())
}

fn reals(values: &[i16]) -> Polynomial {
    Polynomial::new(values.iter().map(|&re| Complex::new(re, 0)).collect())
}

fn two_by_two() -> (Matrix, Matrix) {
    let a = Matrix::new(
        vec![
            reals(&[1, 0, 0, 1]),
            reals(&[2, 1, 0, 1]),
            reals(&[0, 0, 3, 1]),
            reals(&[1, 1, 1, 1]),
        ],
        2,
        2,
    )
    .unwrap();
    let b = Matrix::new(
        vec![
            reals(&[0, 1, 0, 1]),
            reals(&[1, 0, 0, -1]),
            reals(&[2, 0, 0, 1]),
            reals(&[0, 0, 1, 1]),
        ],
        2,
        2,
    )
    .unwrap();
    (a, b)
}

#[test]
fn test_display() {
    let (a, b) = two_by_two();
    println!("m1:\n{}", a.render());
    println!("m2:\n{}", b.render());
    println!("m1 + m2:\n{}", Matrix::add(&a, &b).unwrap().render());
    println!("m1 * m2:\n{}", Matrix::mul(&a, &b).unwrap().render());
}

#[test]
fn matrix_render_rows() {
    let m = Matrix::new(
        vec![reals(&[1]), reals(&[0, 2]), Polynomial::zero(), poly(&[(0, 1), (1, 0)])],
        2,
        2,
    )
    .unwrap();
    assert_eq!("[(1), (2)X]\n[0, (1)X + (1i)]", m.render());
}

#[test]
fn matrix_add_is_element_wise() {
    let (a, b) = two_by_two();
    let sum = Matrix::add(&a, &b).unwrap();
    assert_eq!((2, 2), (sum.width, sum.height));
    for idx in 0..4 {
        assert_eq!(Polynomial::add(&a.content[idx], &b.content[idx]), sum.content[idx]);
    }
    assert_eq!(reals(&[1, 1, 0, 2]), sum.content[0]);
}

#[test]
fn matrix_mul_accumulates_two_products_per_cell() {
    let (a, b) = two_by_two();
    let product = Matrix::mul(&a, &b).unwrap();
    assert_eq!((2, 2), (product.width, product.height));
    for i in 0..2 {
        for j in 0..2 {
            let expected = Polynomial::add(
                &Polynomial::mul(&a.content[i * 2], &b.content[j]),
                &Polynomial::mul(&a.content[1 + i * 2], &b.content[j + 2]),
            );
            assert_eq!(expected, product.content[j + i * 2]);
        }
    }
    // (1 + x^3)(x + x^3) + (2 + x + x^3)(2 + x^3)
    assert_eq!(reals(&[4, 3, 0, 5, 2, 0, 2]), product.content[0]);
}

#[test]
fn matrix_ring_operations_reduce_every_cell() {
    let (a, b) = two_by_two();
    let sum = Matrix::add_in_ring(&a, &b, 2).unwrap();
    let product = Matrix::mul_in_ring(&a, &b, 2).unwrap();
    for idx in 0..4 {
        assert_eq!(
            Polynomial::add_in_ring(&a.content[idx], &b.content[idx], 2),
            sum.content[idx]
        );
        assert!(sum.content[idx].degree < 2);
        assert!(product.content[idx].degree < 2);
    }
    let expected = Polynomial::add_in_ring(
        &Polynomial::mul_in_ring(&a.content[0], &b.content[0], 2),
        &Polynomial::mul_in_ring(&a.content[1], &b.content[2], 2),
        2,
    );
    assert_eq!(expected, product.content[0]);
}

#[test]
fn matrix_shape_errors() {
    let (a, _) = two_by_two();
    let wide = Matrix::new(vec![reals(&[1]), reals(&[2]), reals(&[3])], 3, 1).unwrap();
    assert_eq!(Err(AlgebraError::DimensionMismatch), Matrix::add(&a, &wide));
    assert_eq!(Err(AlgebraError::DimensionMismatch), Matrix::add_in_ring(&a, &wide, 3));
    assert_eq!(Err(AlgebraError::DimensionMismatch), Matrix::mul(&a, &wide));
    assert_eq!(Err(AlgebraError::DimensionMismatch), Matrix::mul_in_ring(&a, &wide, 3));
    // 1x3 times 2x2: width 3 != height 2
    assert_eq!(Err(AlgebraError::DimensionMismatch), Matrix::mul(&wide, &a));
    // 2x2 times 3x1 ... a 3-high column fits a 1x3 row
    let column = Matrix::new(vec![reals(&[1]), reals(&[1]), reals(&[1])], 1, 3).unwrap();
    let dot = Matrix::mul(&wide, &column).unwrap();
    assert_eq!((1, 1), (dot.width, dot.height));
    assert_eq!(reals(&[6]), dot.content[0]);
}

#[test]
fn matrix_construction_errors() {
    assert_eq!(
        Err(AlgebraError::DimensionMismatch),
        Matrix::new(vec![reals(&[1]), reals(&[2]), reals(&[3])], 2, 2)
    );
    assert_eq!(Err(AlgebraError::DimensionMismatch), Matrix::new(vec![], 0, 0));
    let bad = Polynomial { degree: 3, coefficients: vec![Complex::new(1, 0)] };
    assert_eq!(Err(AlgebraError::InvalidDegree), Matrix::new(vec![bad], 1, 1));
    assert!(Matrix::new(vec![poly(&[(1, 1)])], 1, 1).is_ok());
}
