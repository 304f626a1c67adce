use stark_algebra::fields::{
    Field, FieldElement, FieldError, SignedValue, xgcd, CANONICAL_GENERATOR, CANONICAL_MAX_ORDER,
    CANONICAL_PRIME,
};

fn f17() -> Field {
    Field::new(17)
}

fn el(v: u128) -> FieldElement {
    FieldElement::new(v, f17())
}

fn signed(s: &SignedValue) -> i128 {
    if s.negative {
        -(s.magnitude as i128)
    } else {
        s.magnitude as i128
    }
}

#[test]
fn small_prime_scenario() {
    let a = el(10);
    let b = el(15);
    assert_eq!(a.add(&b).value, 8);
    assert_eq!(a.mul(&b).value, 14);
    assert_eq!(a.sub(&b).value, 12);
    let inv = a.inverse().unwrap();
    assert_eq!(a.mul(&inv).value, 1);
    assert_eq!(inv.value, 12);
}

#[test]
fn divide_agrees_with_inverse() {
    let a = el(10);
    let b = el(15);
    let d = a.div(&b).unwrap();
    let i = b.inverse().unwrap();
    assert_eq!(d.value, a.mul(&i).value);
    assert_eq!(d.mul(&b).value, a.value);
}

#[test]
fn additive_structure() {
    let field = f17();
    let a = el(13);
    assert_eq!(a.add(&field.zero()).value, a.value);
    assert_eq!(a.add(&a.neg()).value, 0);
    assert_eq!(a.mul(&field.one()).value, a.value);
    let b = el(9);
    assert_eq!(a.add(&b).value, b.add(&a).value);
    assert_eq!(a.mul(&b).value, b.mul(&a).value);
    let c = el(4);
    assert_eq!(a.add(&b).add(&c).value, a.add(&b.add(&c)).value);
    assert_eq!(a.mul(&b).mul(&c).value, a.mul(&b.mul(&c)).value);
    assert_eq!(a.mul(&b.add(&c)).value, a.mul(&b).add(&a.mul(&c)).value);
}

#[test]
fn inverse_of_zero_fails() {
    let z = el(0);
    assert_eq!(z.inverse().unwrap_err(), FieldError::ZeroDivisor);
    let a = el(5);
    assert_eq!(a.div(&z).unwrap_err(), FieldError::ZeroDivisor);
}

#[test]
fn exponentiation() {
    let a = el(3);
    let e = el(4);
    assert_eq!(a.xor(&e).value, 13);
    assert_eq!(a.xor(&el(0)).value, 1);
    assert_eq!(el(0).xor(&el(5)).value, 0);
}

#[test]
fn extended_euclid() {
    let (s, t, g) = xgcd(240, 46);
    assert_eq!(g, 2);
    assert_eq!(signed(&s) * 240 + signed(&t) * 46, 2);
    assert_eq!(signed(&s), -9);
    assert_eq!(signed(&t), 47);

    let (s, t, g) = xgcd(0, 5);
    assert_eq!((signed(&s), signed(&t), g), (0, 1, 5));
    let (s, t, g) = xgcd(7, 0);
    assert_eq!((signed(&s), signed(&t), g), (1, 0, 7));
}

#[test]
fn xgcd_on_the_canonical_prime() {
    let a: u128 = 1234567890123456789;
    let (s, _t, g) = xgcd(a, CANONICAL_PRIME);
    assert_eq!(g, 1);
    // s normalised modulo p must be the inverse of a
    let field = Field::new(CANONICAL_PRIME);
    let elem = FieldElement::new(a, field);
    let inv = elem.inverse().unwrap();
    assert_eq!(elem.mul(&inv).value, 1);
    assert!(s.magnitude <= CANONICAL_PRIME);
}

#[test]
fn equality_and_zero_test() {
    let a = el(4);
    let b = el(4);
    let c = el(5);
    assert!(a.eq(&b));
    assert!(!a.eq(&c));
    assert!(a.neq(&c));
    assert!(!a.neq(&b));
    assert!(el(0).is_zero());
    assert!(!a.is_zero());
}

#[test]
fn constructor_reduces() {
    let a = FieldElement::new(20, f17());
    assert_eq!(a.value, 3);
    let b = FieldElement::new(17, f17());
    assert_eq!(b.value, 0);
}

#[test]
fn generator_only_for_canonical_prime() {
    let canonical = Field::new(CANONICAL_PRIME);
    let g = canonical.generator().unwrap();
    assert_eq!(g.value, CANONICAL_GENERATOR);
    assert_eq!(
        f17().generator().unwrap_err(),
        FieldError::NonCanonicalModulus
    );
}

#[test]
fn primitive_roots_of_unity() {
    let canonical = Field::new(CANONICAL_PRIME);
    let r2 = canonical.primitive_nth_root(2).unwrap();
    assert_eq!(r2.value, 270497897142230380135924736767050121216);
    assert_eq!(r2.mul(&r2).value, 1);
    let r16 = canonical.primitive_nth_root(16).unwrap();
    assert_eq!(r16.value, 22186728119017901039385635608201850931);
    let top = canonical.primitive_nth_root(CANONICAL_MAX_ORDER).unwrap();
    assert_eq!(top.value, CANONICAL_GENERATOR);
    // the order is exactly 16: the eighth power is -1, the sixteenth is 1
    let r16_8 = r16.mul(&r16).mul(&r16.mul(&r16)).mul(&r16.mul(&r16).mul(&r16.mul(&r16)));
    assert_eq!(r16_8.value, CANONICAL_PRIME - 1);
    assert_eq!(r16_8.mul(&r16_8).value, 1);

    assert_eq!(
        canonical.primitive_nth_root(3).unwrap_err(),
        FieldError::InvalidOrder
    );
    assert_eq!(
        canonical.primitive_nth_root(0).unwrap_err(),
        FieldError::InvalidOrder
    );
    assert_eq!(
        f17().primitive_nth_root(2).unwrap_err(),
        FieldError::NonCanonicalModulus
    );
}

#[test]
fn arithmetic_near_the_modulus() {
    let field = Field::new(CANONICAL_PRIME);
    let top = FieldElement::new(CANONICAL_PRIME - 1, field);
    // (p-1)^2 = 1 (mod p), and (p-1)+(p-1) = p-2
    assert_eq!(top.mul(&top).value, 1);
    assert_eq!(top.add(&top).value, CANONICAL_PRIME - 2);
    assert_eq!(top.sub(&field.one()).value, CANONICAL_PRIME - 2);
    assert_eq!(top.neg().value, 1);
    let e2 = FieldElement::new(2, field);
    assert_eq!(top.xor(&e2).value, 1);
    let inv = top.inverse().unwrap();
    assert_eq!(inv.value, CANONICAL_PRIME - 1);
}

#[test]
fn sample_folds_bytes() {
    let field = f17();
    assert_eq!(field.sample(&[]).value, 1);
    assert_eq!(field.sample(&[1, 2]).value, 4);
    assert_eq!(field.sample(&[255, 0, 7]).value, 8);
}

#[test]
fn string_forms() {
    let a = el(10);
    assert_eq!(a.str(), "10");
    assert_eq!(a.bytes(), "1010");
    let z = el(0);
    assert_eq!(z.str(), "0");
    assert_eq!(z.bytes(), "0");
}
