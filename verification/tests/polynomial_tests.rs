use stark_algebra::fields::{Field, FieldElement};
use stark_algebra::polynomials::{Polynomial, PolynomialError};

fn f17() -> Field {
    Field::new(17)
}

fn el(v: u128) -> FieldElement {
    FieldElement::new(v, f17())
}

fn poly(vals: &[u128]) -> Polynomial {
    let mut coef = Vec::new();
    for &v in vals {
        coef.push(el(v));
    }
    Polynomial::new(coef)
}

fn values_of(p: &Polynomial) -> Vec<u128> {
    let mut out = Vec::new();
    for c in &p.coefficients {
        out.push(c.value);
    }
    out
}

#[test]
fn degree_sentinel() {
    assert_eq!(poly(&[]).degree(), -1);
    assert_eq!(poly(&[0, 0, 0]).degree(), -1);
    assert_eq!(poly(&[5]).degree(), 0);
    assert_eq!(poly(&[5, 0, 3, 0, 0]).degree(), 2);
    assert!(poly(&[0, 0]).is_zero());
    assert!(!poly(&[0, 1]).is_zero());
}

#[test]
fn leading_coefficient() {
    assert_eq!(poly(&[5, 0, 3, 0]).leading_coefficient().value, 3);
}

#[test]
fn negation() {
    assert_eq!(values_of(&poly(&[1, 16, 0]).neg()), vec![16, 1, 0]);
}

#[test]
fn addition_and_subtraction() {
    let a = poly(&[1, 2, 3]);
    let b = poly(&[16, 5]);
    assert_eq!(values_of(&a.add(&b)), vec![0, 7, 3]);
    assert_eq!(values_of(&a.sub(&b)), vec![2, 14, 3]);
    // a zero polynomial leaves the other side unchanged
    assert_eq!(values_of(&poly(&[0, 0]).add(&a)), vec![1, 2, 3]);
    assert_eq!(values_of(&a.add(&poly(&[]))), vec![1, 2, 3]);
}

#[test]
fn multiplication() {
    let a = poly(&[1, 1]);
    let b = poly(&[2, 1]);
    // (1+x)(2+x) = 2 + 3x + x^2, one slot of slack
    assert_eq!(values_of(&a.mul(&b)), vec![2, 3, 1, 0]);
    assert_eq!(values_of(&a.mul(&poly(&[0]))), Vec::<u128>::new());
    assert_eq!(values_of(&poly(&[]).mul(&b)), Vec::<u128>::new());
}

#[test]
fn structural_equality() {
    let a = poly(&[1, 2]);
    let b = poly(&[1, 2]);
    let c = poly(&[1, 3]);
    assert!(a.eq(&b));
    assert!(a.neq(&c));
    // zero polynomials of different lengths are equal
    assert!(poly(&[]).eq(&poly(&[0, 0])));
    // same truncation but different raw length is not equal
    assert!(poly(&[1, 2]).neq(&poly(&[1, 2, 0])));
}

#[test]
fn euclidean_division_round_trip() {
    // x^2 + 3x + 5 = (x + 2)(x + 1) + 3 over the 17-element field
    let numerator = poly(&[5, 3, 1]);
    let denominator = poly(&[2, 1]);
    let (q, r) = numerator.divide(&denominator).unwrap();
    assert_eq!(q.degree(), 1);
    assert!(r.degree() < denominator.degree());
    let recombined = q.mul(&denominator).add(&r);
    assert!(numerator.eq(&recombined));
}

#[test]
fn division_by_zero_polynomial() {
    let a = poly(&[1, 2, 3]);
    assert_eq!(
        a.divide(&poly(&[0, 0])).unwrap_err(),
        PolynomialError::ZeroDivisor
    );
    assert_eq!(a.modulo(&poly(&[])).unwrap_err(), PolynomialError::ZeroDivisor);
    assert_eq!(
        a.truediv(&poly(&[0])).unwrap_err(),
        PolynomialError::ZeroDivisor
    );
}

#[test]
fn small_degree_returns_dividend() {
    let a = poly(&[4, 1]);
    let d = poly(&[1, 2, 3]);
    let (q, r) = a.divide(&d).unwrap();
    assert_eq!(q.degree(), -1);
    assert_eq!(values_of(&r), vec![4, 1]);
}

#[test]
fn exact_division() {
    let a = poly(&[1, 1]);
    let b = poly(&[2, 1]);
    let prod = a.mul(&b);
    let q = prod.truediv(&b).unwrap();
    assert!(q.eq(&a));
    // a division with remainder is refused
    assert_eq!(
        poly(&[5, 3, 1]).truediv(&b).unwrap_err(),
        PolynomialError::NonZeroRemainder
    );
    let m = poly(&[5, 3, 1]).modulo(&b).unwrap();
    assert_eq!(m.degree(), 0);
    assert_eq!(m.coefficients[0].value, 3);
}

#[test]
fn evaluation() {
    let a = poly(&[5, 3, 1]);
    // 5 + 3*2 + 4 = 15
    assert_eq!(a.evaluate(&el(2)).value, 15);
    assert_eq!(poly(&[]).evaluate(&el(3)).value, 0);
    let outs = a.evaluate_domain(&vec![el(0), el(1), el(2)]);
    assert_eq!(outs[0].value, 5);
    assert_eq!(outs[1].value, 9);
    assert_eq!(outs[2].value, 15);
}

#[test]
fn interpolation_round_trip() {
    let domain = vec![el(1), el(2), el(3)];
    let values = vec![el(5), el(7), el(11)];
    let p = Polynomial::interpolate_domain(&domain, &values).unwrap();
    let back = p.evaluate_domain(&domain);
    for (got, want) in back.iter().zip(values.iter()) {
        assert_eq!(got.value, want.value);
    }
    assert_eq!(p.evaluate(&el(1)).value, 5);
    assert_eq!(p.evaluate(&el(2)).value, 7);
    assert_eq!(p.evaluate(&el(3)).value, 11);
}

#[test]
fn interpolation_errors() {
    let d = vec![el(1), el(2)];
    let v = vec![el(5)];
    assert_eq!(
        Polynomial::interpolate_domain(&d, &v).unwrap_err(),
        PolynomialError::LengthMismatch
    );
    let empty: Vec<FieldElement> = Vec::new();
    assert_eq!(
        Polynomial::interpolate_domain(&empty, &empty).unwrap_err(),
        PolynomialError::EmptyDomain
    );
    let dup = vec![el(1), el(1)];
    let vv = vec![el(5), el(6)];
    assert_eq!(
        Polynomial::interpolate_domain(&dup, &vv).unwrap_err(),
        PolynomialError::DuplicatePoint
    );
}

#[test]
fn zerofier_vanishes_on_domain() {
    let domain = vec![el(2), el(5), el(9)];
    let z = Polynomial::zerofier_domain(&domain);
    assert_eq!(z.degree(), 3);
    for d in &domain {
        assert_eq!(z.evaluate(d).value, 0);
    }
    assert_eq!(z.evaluate(&el(3)).value != 0, true);
    assert_eq!(z.leading_coefficient().value, 1);
}

#[test]
fn colinearity() {
    let line = vec![(el(0), el(5)), (el(1), el(5)), (el(2), el(5))];
    assert_eq!(Polynomial::test_colinearity(&line).unwrap(), true);
    let parabola = vec![(el(0), el(0)), (el(1), el(1)), (el(2), el(4))];
    assert_eq!(Polynomial::test_colinearity(&parabola).unwrap(), false);
    let dup = vec![(el(0), el(5)), (el(0), el(6))];
    assert_eq!(
        Polynomial::test_colinearity(&dup).unwrap_err(),
        PolynomialError::DuplicatePoint
    );
}

#[test]
fn scaling() {
    let a = poly(&[1, 2, 3]);
    let s = a.scale(&el(2));
    assert_eq!(values_of(&s), vec![1, 4, 12]);
    // composing with factor*x: s(x) == a(2x)
    assert_eq!(s.evaluate(&el(3)).value, a.evaluate(&el(6)).value);
}

#[test]
fn polynomial_power() {
    let a = poly(&[1, 1]);
    let sq = a.xor(el(2));
    assert_eq!(sq.evaluate(&el(4)).value, a.evaluate(&el(4)).mul(&a.evaluate(&el(4))).value);
    assert_eq!(sq.degree(), 2);
    // anything to the zeroth power is one
    assert_eq!(values_of(&a.xor(el(0))), vec![1]);
    // except the zero polynomial, which stays zero, for zero too
    assert!(poly(&[0]).xor(el(0)).is_zero());
    assert!(poly(&[]).xor(el(5)).is_zero());
}
