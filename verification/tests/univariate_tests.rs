use gkr_sumcheck::field::FieldElement;
use gkr_sumcheck::univariate::UnivariatePolynomialDense;

fn fq(x: u64) -> FieldElement {
    FieldElement::from_u64(x)
}

fn poly1() -> UnivariatePolynomialDense {
    UnivariatePolynomialDense::new(vec![fq(1), fq(2), fq(3)])
}

fn poly2() -> UnivariatePolynomialDense {
    UnivariatePolynomialDense::new(vec![fq(5), fq(2)])
}

#[test]
fn test_create_polynomial() {
    let poly = poly1();
    assert_eq!(poly.degree, 2);
    assert_eq!(poly.coefficients, vec![fq(1), fq(2), fq(3)]);
}

#[test]
fn test_evaluate() {
    let poly = poly1();
    assert_eq!(poly.evaluate(fq(2)), fq(17));
}

#[test]
fn test_evaluate_at_zero() {
    let poly = poly1();
    assert_eq!(poly.evaluate(fq(0)), fq(1));
}

#[test]
fn test_poly_add() {
    let poly_1 = poly1();
    let poly_2 = poly2();
    assert_eq!(
        poly_1.polynomial_addition(&poly_2).coefficients,
        vec![fq(6), fq(4), fq(3)]
    );
}

#[test]
fn test_poly_mul() {
    let poly_1 = poly1();
    let poly_2 = poly2();
    assert_eq!(
        poly_1.polynomial_multiplication(&poly_2).coefficients,
        vec![fq(5), fq(12), fq(19), fq(6)]
    );
}

#[test]
fn test_scalar_mul() {
    let poly_1 = poly1();
    let scalar = fq(2);
    assert_eq!(
        poly_1.scalar_multiplication(scalar).coefficients,
        vec![fq(2), fq(4), fq(6)]
    );
}

#[test]
fn test_interpolate() {
    let result = UnivariatePolynomialDense::interpolate(
        vec![fq(0), fq(1), fq(2)],
        vec![fq(2), fq(4), fq(10)],
    );
    assert_eq!(result.coefficients, vec![fq(2), fq(0), fq(2)]);
}

#[test]
fn test_fib() {
    let x_values = vec![fq(0), fq(1), fq(2), fq(3), fq(4), fq(5), fq(6), fq(7)];
    let y_values = vec![fq(1), fq(1), fq(2), fq(3), fq(5), fq(8), fq(13), fq(21)];

    let poly = UnivariatePolynomialDense::interpolate(x_values, y_values);

    // test for degree
    assert_eq!(poly.degree, 7);

    // test boundary condition
    assert_eq!(poly.evaluate(fq(0)), fq(1));
    assert_eq!(poly.evaluate(fq(1)), fq(1));

    // f(x) = f(x - 1) + f(x - 2)
    let x = fq(5);
    assert_eq!(
        poly.evaluate(x),
        poly.evaluate(x.sub(&fq(1))).add(&poly.evaluate(x.sub(&fq(2))))
    );

    // f(7) = 21
    assert_eq!(poly.evaluate(fq(7)), fq(21));
}

// Interpolation passes through every given point.
#[test]
fn test_interpolate_hits_all_points() {
    let xs = vec![fq(0), fq(1), fq(2), fq(3)];
    let ys = vec![fq(7), fq(0), fq(11), fq(29)];
    let poly = UnivariatePolynomialDense::interpolate(xs.clone(), ys.clone());
    for i in 0..xs.len() {
        assert_eq!(poly.evaluate(xs[i]), ys[i]);
    }
}
