//! A prime field: canonical residues modulo an odd prime, the extended
//! Euclidean algorithm, modular inversion and division, exponentiation,
//! and fixed algebraic constants for one canonical prime.

use vstd::prelude::*;
#[allow(unused_imports)]
use vstd::arithmetic::div_mod::*;
#[allow(unused_imports)]
use vstd::arithmetic::mul::*;
#[allow(unused_imports)]
use vstd::arithmetic::power::*;
#[allow(unused_imports)]
use vstd::arithmetic::power2::*;
use crate::modular::{add_mod, f_add, f_mul, f_neg, f_pow, f_sub, is_pow2, lemma_pow2_ordering,
    mul_mod, neg_mod, pow_mod, sub_mod};
use crate::number_theory::{gcd, is_prime, lemma_prime_coprime};

verus! {

/// The canonical modulus `1 + 407 * 2^119`, a prime.
pub const CANONICAL_PRIME: u128 = 270497897142230380135924736767050121217;

/// The fixed element of the canonical field whose powers give every
/// root of unity used here; it has multiplicative order `2^119`.
pub const CANONICAL_GENERATOR: u128 = 85408008396924667383611388730472331217;

/// The order `2^119` of the canonical generator.
pub const CANONICAL_MAX_ORDER: u128 = 664613997892457936451903530140172288;

/// A signed integer held as a sign with a `u128` magnitude, wide enough
/// for the Bezout coefficients of any 128-bit inputs.
#[derive(Clone, Copy, PartialEq, Eq, Structural, Debug)]
pub struct SignedValue {
    pub negative: bool,
    pub magnitude: u128,
}

impl SignedValue {
    /// The integer this value stands for.
    pub open spec fn as_int(self) -> int {
        if self.negative {
            -(self.magnitude as int)
        } else {
            self.magnitude as int
        }
    }
}

/// One Bezout-coefficient update of the extended Euclidean algorithm:
/// `older - q * cur`, on sign-magnitude values of opposite (or vacuous)
/// signs, so the magnitudes simply accumulate.
fn bezout_step(older: SignedValue, q: u128, cur: SignedValue) -> (r: SignedValue)
    requires
        older.magnitude == 0 || cur.magnitude == 0 || older.negative != cur.negative,
        older.magnitude + q * cur.magnitude <= u128::MAX,
    ensures
        r.as_int() == older.as_int() - q * cur.as_int(),
        r.magnitude == older.magnitude + q * cur.magnitude,
        cur.magnitude == 0 || r.magnitude == 0 || cur.negative != r.negative,
{
    let scaled = q * cur.magnitude;
    let mag = older.magnitude + scaled;
    let neg = if older.magnitude > 0 {
        older.negative
    } else {
        !cur.negative
    };
    let r = SignedValue { negative: neg, magnitude: mag };
    proof {
        assert(q as int * (-(cur.magnitude as int)) == -(q as int * cur.magnitude as int))
            by (nonlinear_arith);
        assert(r.as_int() == older.as_int() - q * cur.as_int());
    }
    r
}

/// The extended Euclidean algorithm: returns `(s, t, g)` with
/// `s*x + t*y == g == gcd(x, y)`.  The coefficient magnitudes stay within
/// the inputs (or 1), so every intermediate fits a `u128`.
pub fn xgcd(x: u128, y: u128) -> (res: (SignedValue, SignedValue, u128))
    ensures
        res.0.as_int() * x + res.1.as_int() * y == res.2,
        res.2 == gcd(x as nat, y as nat),
        res.0.magnitude <= y || res.0.magnitude <= 1,
        res.1.magnitude <= x || res.1.magnitude <= 1,
{
    let mut old_r: u128 = x;
    let mut r: u128 = y;
    let mut old_s = SignedValue { negative: false, magnitude: 1 };
    let mut s = SignedValue { negative: false, magnitude: 0 };
    let mut old_t = SignedValue { negative: false, magnitude: 0 };
    let mut t = SignedValue { negative: false, magnitude: 1 };
    proof {
        lemma_mul_basics(x as int);
        lemma_mul_basics(y as int);
        assert(old_s.as_int() == 1 && s.as_int() == 0 && old_t.as_int() == 0 && t.as_int() == 1);
    }
    while r != 0
        invariant
            old_s.as_int() * x + old_t.as_int() * y == old_r as int,
            s.as_int() * x + t.as_int() * y == r as int,
            gcd(old_r as nat, r as nat) == gcd(x as nat, y as nat),
            s.magnitude as int * old_r as int + old_s.magnitude as int * r as int == y as int,
            t.magnitude as int * old_r as int + old_t.magnitude as int * r as int == x as int,
            old_s.magnitude == 0 || s.magnitude == 0 || old_s.negative != s.negative,
            old_t.magnitude == 0 || t.magnitude == 0 || old_t.negative != t.negative,
            old_s.magnitude <= y || old_s.magnitude <= 1,
            s.magnitude <= y || s.magnitude <= 1,
            old_t.magnitude <= x || old_t.magnitude <= 1,
            t.magnitude <= x || t.magnitude <= 1,
        decreases r,
    {
        let q = old_r / r;
        let new_r = old_r % r;
        let ghost s_m = old_s.magnitude as int + q as int * s.magnitude as int;
        let ghost t_m = old_t.magnitude as int + q as int * t.magnitude as int;
        proof {
            lemma_fundamental_div_mod(old_r as int, r as int);
            lemma_mul_is_commutative(r as int, q as int);
            assert(old_r as int == q as int * r as int + new_r as int);
            // the two running products keep their totals
            assert(s_m * r as int + s.magnitude as int * new_r as int == y as int)
                by (nonlinear_arith)
                requires
                    s_m == old_s.magnitude as int + q as int * s.magnitude as int,
                    old_r as int == q as int * r as int + new_r as int,
                    s.magnitude as int * old_r as int + old_s.magnitude as int * r as int
                        == y as int,
            ;
            assert(t_m * r as int + t.magnitude as int * new_r as int == x as int)
                by (nonlinear_arith)
                requires
                    t_m == old_t.magnitude as int + q as int * t.magnitude as int,
                    old_r as int == q as int * r as int + new_r as int,
                    t.magnitude as int * old_r as int + old_t.magnitude as int * r as int
                        == x as int,
            ;
            // hence the next magnitudes stay bounded by the inputs
            assert(s_m <= y as int) by (nonlinear_arith)
                requires
                    s_m * r as int + s.magnitude as int * new_r as int == y as int,
                    r as int >= 1,
                    s_m >= 0,
                    s.magnitude as int >= 0,
                    new_r as int >= 0,
            ;
            assert(t_m <= x as int) by (nonlinear_arith)
                requires
                    t_m * r as int + t.magnitude as int * new_r as int == x as int,
                    r as int >= 1,
                    t_m >= 0,
                    t.magnitude as int >= 0,
                    new_r as int >= 0,
            ;
        }
        let new_s = bezout_step(old_s, q, s);
        let new_t = bezout_step(old_t, q, t);
        proof {
            // the Bezout identity carries over to the new row
            assert(new_s.as_int() * x + new_t.as_int() * y == new_r as int)
                by (nonlinear_arith)
                requires
                    new_s.as_int() == old_s.as_int() - q as int * s.as_int(),
                    new_t.as_int() == old_t.as_int() - q as int * t.as_int(),
                    old_s.as_int() * x + old_t.as_int() * y == old_r as int,
                    s.as_int() * x + t.as_int() * y == r as int,
                    old_r as int == q as int * r as int + new_r as int,
            ;
            assert(gcd(r as nat, new_r as nat) == gcd(old_r as nat, r as nat));
        }
        old_r = r;
        r = new_r;
        old_s = s;
        s = new_s;
        old_t = t;
        t = new_t;
    }
    (old_s, old_t, old_r)
}

/// The failures a field operation can report.
#[derive(Clone, Copy, PartialEq, Eq, Structural, Debug)]
pub enum FieldError {
    /// Inversion of zero, or division by zero.
    ZeroDivisor,
    /// A fixed constant was requested for a modulus it is not defined for.
    NonCanonicalModulus,
    /// A root-of-unity order that is not a power of two, or exceeds the
    /// canonical maximum order.
    InvalidOrder,
}

/// A prime field, described by its modulus.  That the modulus is prime is
/// the caller's responsibility; every contract that needs primality says so.
#[derive(Clone, Copy, PartialEq, Eq, Structural, Debug)]
pub struct Field {
    pub p: u128,
}

/// An element of a prime field: a canonical residue and its field.
#[derive(Clone, Copy, PartialEq, Eq, Structural, Debug)]
pub struct FieldElement {
    pub value: u128,
    pub field: Field,
}

impl FieldElement {
    /// A canonical residue: strictly below a workable modulus.
    pub open spec fn wf(self) -> bool {
        self.field.wf() && self.value < self.field.p
    }
}

impl Field {
    /// The modulus is large enough to hold the residues 0 and 1.
    pub open spec fn wf(self) -> bool {
        self.p >= 2
    }

    /// Builds the field with the given modulus.
    pub fn new(p: u128) -> (f: Field)
        requires
            p >= 2,
        ensures
            f.p == p,
            f.wf(),
    {
        Field { p }
    }

    /// The additive identity of this field.
    pub fn zero(&self) -> (z: FieldElement)
        requires
            self.wf(),
        ensures
            z.field == *self,
            z.value == 0,
            z.wf(),
    {
        FieldElement { value: 0, field: *self }
    }

    /// The multiplicative identity of this field.
    pub fn one(&self) -> (o: FieldElement)
        requires
            self.wf(),
        ensures
            o.field == *self,
            o.value == 1,
            o.wf(),
    {
        FieldElement { value: 1, field: *self }
    }

    /// Adds two residues of this field.
    pub fn add(&self, left: &FieldElement, right: &FieldElement) -> (r: FieldElement)
        requires
            left.wf(),
            right.wf(),
            left.field == *self,
            right.field == *self,
        ensures
            r.field == *self,
            r.wf(),
            r.value as int == f_add(left.value as int, right.value as int, self.p as int),
    {
        FieldElement { value: add_mod(left.value, right.value, self.p), field: *self }
    }

    /// Subtracts two residues of this field, avoiding negative intermediates.
    pub fn subtract(&self, left: &FieldElement, right: &FieldElement) -> (r: FieldElement)
        requires
            left.wf(),
            right.wf(),
            left.field == *self,
            right.field == *self,
        ensures
            r.field == *self,
            r.wf(),
            r.value as int == f_sub(left.value as int, right.value as int, self.p as int),
    {
        FieldElement { value: sub_mod(left.value, right.value, self.p), field: *self }
    }

    /// Multiplies two residues of this field.
    pub fn multiply(&self, left: &FieldElement, right: &FieldElement) -> (r: FieldElement)
        requires
            left.wf(),
            right.wf(),
            left.field == *self,
            right.field == *self,
        ensures
            r.field == *self,
            r.wf(),
            r.value as int == f_mul(left.value as int, right.value as int, self.p as int),
    {
        FieldElement { value: mul_mod(left.value, right.value, self.p), field: *self }
    }

    /// Negates a residue of this field.
    pub fn negate(&self, operand: &FieldElement) -> (r: FieldElement)
        requires
            operand.wf(),
            operand.field == *self,
        ensures
            r.field == *self,
            r.wf(),
            r.value as int == f_neg(operand.value as int, self.p as int),
    {
        FieldElement { value: neg_mod(operand.value, self.p), field: *self }
    }

    /// Inverts a nonzero residue through the extended Euclidean algorithm.
    /// Whatever the modulus, the result times the operand is congruent to
    /// their gcd; when the modulus is prime that product is one.
    pub fn inverse(&self, operand: &FieldElement) -> (res: Result<FieldElement, FieldError>)
        requires
            operand.wf(),
            operand.field == *self,
        ensures
            res is Err <==> operand.value == 0,
            res is Err ==> (res matches Err(e) && e == FieldError::ZeroDivisor),
            res matches Ok(v) ==> {
                &&& v.field == *self
                &&& v.wf()
                &&& (operand.value as int * v.value as int) % (self.p as int) == gcd(
                    operand.value as nat,
                    self.p as nat,
                ) as int % (self.p as int)
                &&& is_prime(self.p as int) ==> (operand.value as int * v.value as int) % (
                self.p as int) == 1
            },
    {
        if operand.value == 0 {
            return Err(FieldError::ZeroDivisor);
        }
        let (s, _t, g) = xgcd(operand.value, self.p);
        let p = self.p;
        let sm = s.magnitude % p;
        let v = if s.negative {
            if sm == 0 {
                0
            } else {
                p - sm
            }
        } else {
            sm
        };
        proof {
            let a = operand.value as int;
            let pp = p as int;
            let si = s.as_int();
            let ti = _t.as_int();
            // v is the canonical residue of the Bezout coefficient s
            lemma_mod_bound(s.magnitude as int, pp);
            lemma_fundamental_div_mod(s.magnitude as int, pp);
            let k = s.magnitude as int / pp;
            if s.negative {
                if sm == 0 {
                    assert(-(s.magnitude as int) == (-k) * pp + 0) by (nonlinear_arith)
                        requires
                            s.magnitude as int == pp * k + 0,
                    ;
                    lemma_fundamental_div_mod_converse_mod(si, pp, -k, 0);
                } else {
                    assert(si == (-k - 1) * pp + (pp - sm as int)) by (nonlinear_arith)
                        requires
                            si == -(s.magnitude as int),
                            s.magnitude as int == pp * k + sm as int,
                    ;
                    lemma_fundamental_div_mod_converse_mod(si, pp, -k - 1, pp - sm as int);
                }
            } else {
                lemma_mul_is_commutative(pp, k);
                assert(si == k * pp + sm as int);
                lemma_fundamental_div_mod_converse_mod(si, pp, k, sm as int);
            }
            assert(v as int == si % pp);
            // a * v is congruent to the gcd
            let gg = gcd(operand.value as nat, self.p as nat) as int;
            lemma_mul_mod_noop_right(a, si, pp);
            assert(a * si == pp * (-ti) + gg) by (nonlinear_arith)
                requires
                    si * a + ti * pp == gg,
            ;
            lemma_mod_multiples_vanish(-ti, gg, pp);
            assert((a * v as int) % pp == gg % pp);
            // for a prime modulus the gcd of a nonzero residue is one
            if is_prime(pp) {
                lemma_prime_coprime(operand.value as nat, self.p as nat);
                lemma_small_mod(1, self.p as nat);
            }
        }
        Ok(FieldElement { value: v, field: *self })
    }

    /// Divides `left` by a nonzero `right`: multiplication by the inverse.
    pub fn divide(&self, left: &FieldElement, right: &FieldElement) -> (res: Result<
        FieldElement,
        FieldError,
    >)
        requires
            left.wf(),
            right.wf(),
            left.field == *self,
            right.field == *self,
        ensures
            res is Err <==> right.value == 0,
            res is Err ==> (res matches Err(e) && e == FieldError::ZeroDivisor),
            res matches Ok(v) ==> {
                &&& v.field == *self
                &&& v.wf()
                &&& is_prime(self.p as int) ==> (v.value as int * right.value as int) % (
                self.p as int) == left.value as int
            },
    {
        if right.value == 0 {
            return Err(FieldError::ZeroDivisor);
        }
        match self.inverse(right) {
            Err(e) => Err(e),
            Ok(inv) => {
                let v = mul_mod(left.value, inv.value, self.p);
                proof {
                    let a = left.value as int;
                    let b = right.value as int;
                    let i = inv.value as int;
                    let pp = self.p as int;
                    if is_prime(pp) {
                        // (a*i mod p) * b == a * (i*b) == a * 1 (mod p)
                        lemma_mul_mod_noop_left(a * i, b, pp);
                        lemma_mul_is_associative(a, i, b);
                        lemma_mul_mod_noop_right(a, i * b, pp);
                        lemma_mul_is_commutative(b, i);
                        assert((v as int * b) % pp == (a * 1) % pp);
                        lemma_small_mod(left.value as nat, self.p as nat);
                    }
                }
                Ok(FieldElement { value: v, field: *self })
            },
        }
    }

    /// The fixed generator constant, defined only for the canonical prime.
    pub fn generator(&self) -> (res: Result<FieldElement, FieldError>)
        ensures
            res is Err <==> self.p != CANONICAL_PRIME,
            res is Err ==> (res matches Err(e) && e == FieldError::NonCanonicalModulus),
            res matches Ok(g) ==> g.field == *self && g.value == CANONICAL_GENERATOR && g.wf(),
    {
        if self.p == CANONICAL_PRIME {
            Ok(FieldElement { value: CANONICAL_GENERATOR, field: *self })
        } else {
            Err(FieldError::NonCanonicalModulus)
        }
    }

    /// A primitive `n`-th root of unity of the canonical field, found by
    /// squaring the canonical generator down from order `2^119`; `n` must be
    /// a power of two no larger than that order, and the modulus canonical.
    pub fn primitive_nth_root(&self, n: u128) -> (res: Result<FieldElement, FieldError>)
        ensures
            res is Err <==> self.p != CANONICAL_PRIME || !(is_pow2(n as nat) && n
                <= CANONICAL_MAX_ORDER),
            self.p != CANONICAL_PRIME ==> (res matches Err(e) && e
                == FieldError::NonCanonicalModulus),
            self.p == CANONICAL_PRIME && !(is_pow2(n as nat) && n <= CANONICAL_MAX_ORDER) ==> (
            res matches Err(e) && e == FieldError::InvalidOrder),
            res matches Ok(g) ==> {
                &&& g.field == *self
                &&& g.wf()
                &&& g.value as int == f_pow(
                    CANONICAL_GENERATOR as int,
                    (CANONICAL_MAX_ORDER / n) as nat,
                    self.p as int,
                )
                &&& f_pow(g.value as int, n as nat, self.p as int) == 1
                &&& n >= 2 ==> f_pow(g.value as int, (n / 2) as nat, self.p as int) == (
                CANONICAL_PRIME - 1) as int
            },
    {
        if self.p != CANONICAL_PRIME {
            return Err(FieldError::NonCanonicalModulus);
        }
        if n == 0 || n > CANONICAL_MAX_ORDER {
            return Err(FieldError::InvalidOrder);
        }
        let mut m = n;
        while m > 1 && m % 2 == 0
            invariant
                m >= 1,
                is_pow2(n as nat) == is_pow2(m as nat),
            decreases m,
        {
            m = m / 2;
        }
        if m != 1 {
            return Err(FieldError::InvalidOrder);
        }
        let p = self.p;
        let mut root: u128 = CANONICAL_GENERATOR;
        let mut order: u128 = CANONICAL_MAX_ORDER;
        let ghost mut k: int = 1;
        proof {
            lemma_max_order_is_pow2();
            lemma_pow1(CANONICAL_GENERATOR as int);
            lemma_small_mod(CANONICAL_GENERATOR as nat, p as nat);
        }
        while order != n
            invariant
                p == CANONICAL_PRIME,
                root < p,
                is_pow2(order as nat),
                is_pow2(n as nat),
                n <= order,
                k >= 1,
                k * order == CANONICAL_MAX_ORDER as int,
                root as int == f_pow(CANONICAL_GENERATOR as int, k as nat, p as int),
            decreases order,
        {
            proof {
                lemma_pow2_ordering(n as nat, order as nat);
            }
            let ghost root0 = root as int;
            let ghost order0 = order as int;
            root = mul_mod(root, root, p);
            order = order / 2;
            proof {
                let g = CANONICAL_GENERATOR as int;
                let pp = p as int;
                lemma_pow_adds(g, k as nat, k as nat);
                lemma_mul_mod_noop(pow(g, k as nat), pow(g, k as nat), pp);
                assert(root as int == (root0 * root0) % pp);
                assert(root as int == f_pow(g, (2 * k) as nat, pp));
                lemma_fundamental_div_mod(order0, 2);
                assert(order0 == 2 * (order as int));
                assert((2 * k) * (order as int) == k * order0) by (nonlinear_arith)
                    requires
                        order0 == 2 * (order as int),
                ;
                k = 2 * k;
            }
        }
        proof {
            lemma_div_by_multiple(k, n as int);
            assert((k * n as int) / n as int == k);
            assert(CANONICAL_MAX_ORDER as int / n as int == k);
            // the returned value is a primitive n-th root of unity
            let gg = CANONICAL_GENERATOR as int;
            let pp = p as int;
            lemma_max_order_is_pow2();
            lemma_generator_order();
            lemma_pow_mod_noop(pow(gg, k as nat), n as nat, pp);
            lemma_pow_multiplies(gg, k as nat, n as nat);
            assert((k as nat) * (n as nat) == pow2(119));
            assert(f_pow(root as int, n as nat, pp) == f_pow(gg, pow2(119), pp));
            if n >= 2 {
                assert(n % 2 == 0);
                let h = (n / 2) as int;
                assert(k * h * 2 == k * (2 * h)) by (nonlinear_arith);
                assert(k * h * 2 == k * n as int);
                lemma_pow2_unfold(119);
                assert(pow2(119) == 2 * pow2(118));
                assert(k * h == pow2(118));
                lemma_pow_mod_noop(pow(gg, k as nat), (n / 2) as nat, pp);
                lemma_pow_multiplies(gg, k as nat, (n / 2) as nat);
                assert((k as nat) * ((n / 2) as nat) == pow2(118));
                assert(f_pow(root as int, (n / 2) as nat, pp) == f_pow(gg, pow2(118), pp));
            }
        }
        Ok(FieldElement { value: root, field: *self })
    }

    /// Folds a byte string into one element: the accumulator starts at one,
    /// and each byte `b` turns `acc` into `(acc * 256 + b) mod p`.  This is
    /// the designed fold; it is deterministic in the bytes alone.
    pub fn sample(&self, ba: &[u8]) -> (r: FieldElement)
        requires
            self.wf(),
        ensures
            r.field == *self,
            r.wf(),
            r.value as int == sample_fold(ba@, self.p as int),
    {
        let p = self.p;
        let mut acc: u128 = 1 % p;
        proof {
            assert(ba@.subrange(0, 0) =~= Seq::<u8>::empty());
        }
        let mut i: usize = 0;
        while i < ba.len()
            invariant
                p == self.p,
                p >= 2,
                acc < p,
                i <= ba.len(),
                acc as int == sample_fold(ba@.subrange(0, i as int), p as int),
            decreases ba.len() - i,
        {
            let b = ba[i];
            let ghost acc0 = acc as int;
            let shifted = mul_mod(acc, 256 % p, p);
            acc = add_mod(shifted, (b as u128) % p, p);
            proof {
                let pp = p as int;
                lemma_mod_twice(256, pp);
                lemma_mul_mod_noop_right(acc0, 256, pp);
                assert(shifted as int == (acc0 * 256) % pp);
                lemma_add_mod_noop(acc0 * 256, b as int, pp);
                lemma_mod_twice(b as int, pp);
                assert(acc as int == (acc0 * 256 + b) % pp);
                assert(ba@.subrange(0, i + 1).drop_last() =~= ba@.subrange(0, i as int));
                assert(ba@.subrange(0, i + 1).last() == b);
            }
            i = i + 1;
        }
        proof {
            assert(ba@.subrange(0, ba@.len() as int) =~= ba@);
        }
        FieldElement { value: acc, field: *self }
    }
}

/// The byte fold that `sample` computes: starting from one, each byte is
/// appended below a shift by eight bits, reduced modulo `p`.
pub open spec fn sample_fold(bytes: Seq<u8>, p: int) -> int
    decreases bytes.len(),
{
    if bytes.len() == 0 {
        1int % p
    } else {
        (sample_fold(bytes.drop_last(), p) * 256 + bytes.last()) % p
    }
}

/// The canonical maximum order is an exact power of two, namely `2^119`.
proof fn lemma_max_order_is_pow2()
    ensures
        is_pow2(CANONICAL_MAX_ORDER as nat),
        CANONICAL_MAX_ORDER as nat == pow2(119),
{
    lemma2_to64();
    lemma2_to64_rest();
    lemma_pow2_adds(64, 55);
    assert(CANONICAL_MAX_ORDER as nat == pow2(119));
    lemma_pow2_is_pow2(119);
}

/// Every `2^e` satisfies the recursive power-of-two predicate.
proof fn lemma_pow2_is_pow2(e: nat)
    ensures
        is_pow2(pow2(e)),
    decreases e,
{
    vstd::arithmetic::power2::lemma_pow2_pos(e);
    if e == 0 {
        lemma_pow0(2);
        assert(pow2(0) == 1);
    } else {
        lemma_pow2_is_pow2((e - 1) as nat);
        lemma_pow2_unfold(e);
        assert(pow2(e) == 2 * pow2((e - 1) as nat));
        assert(pow2(e) % 2 == 0 && pow2(e) / 2 == pow2((e - 1) as nat));
    }
}

impl FieldElement {
    /// Builds an element from any integer, reduced into canonical range.
    pub fn new(value: u128, field: Field) -> (r: FieldElement)
        requires
            field.wf(),
        ensures
            r.field == field,
            r.wf(),
            r.value as int == value as int % field.p as int,
    {
        FieldElement { value: value % field.p, field }
    }

    /// Adds another element of the same field.
    pub fn add(&self, right: &FieldElement) -> (r: FieldElement)
        requires
            self.wf(),
            right.wf(),
            self.field == right.field,
        ensures
            r.field == self.field,
            r.wf(),
            r.value as int == f_add(self.value as int, right.value as int, self.field.p as int),
    {
        self.field.add(self, right)
    }

    /// Multiplies by another element of the same field.
    pub fn mul(&self, right: &FieldElement) -> (r: FieldElement)
        requires
            self.wf(),
            right.wf(),
            self.field == right.field,
        ensures
            r.field == self.field,
            r.wf(),
            r.value as int == f_mul(self.value as int, right.value as int, self.field.p as int),
    {
        self.field.multiply(self, right)
    }

    /// Subtracts another element of the same field.
    pub fn sub(&self, right: &FieldElement) -> (r: FieldElement)
        requires
            self.wf(),
            right.wf(),
            self.field == right.field,
        ensures
            r.field == self.field,
            r.wf(),
            r.value as int == f_sub(self.value as int, right.value as int, self.field.p as int),
    {
        self.field.subtract(self, right)
    }

    /// Divides by another element of the same field; fails on zero.
    pub fn div(&self, right: &FieldElement) -> (res: Result<FieldElement, FieldError>)
        requires
            self.wf(),
            right.wf(),
            self.field == right.field,
        ensures
            res is Err <==> right.value == 0,
            res is Err ==> (res matches Err(e) && e == FieldError::ZeroDivisor),
            res matches Ok(v) ==> {
                &&& v.field == self.field
                &&& v.wf()
                &&& is_prime(self.field.p as int) ==> (v.value as int * right.value as int) % (
                self.field.p as int) == self.value as int
            },
    {
        self.field.divide(self, right)
    }

    /// The additive inverse of this element.
    pub fn neg(&self) -> (r: FieldElement)
        requires
            self.wf(),
        ensures
            r.field == self.field,
            r.wf(),
            r.value as int == f_neg(self.value as int, self.field.p as int),
    {
        self.field.negate(self)
    }

    /// The multiplicative inverse of this element; fails on zero.
    pub fn inverse(&self) -> (res: Result<FieldElement, FieldError>)
        requires
            self.wf(),
        ensures
            res is Err <==> self.value == 0,
            res is Err ==> (res matches Err(e) && e == FieldError::ZeroDivisor),
            res matches Ok(v) ==> {
                &&& v.field == self.field
                &&& v.wf()
                &&& (self.value as int * v.value as int) % (self.field.p as int) == gcd(
                    self.value as nat,
                    self.field.p as nat,
                ) as int % (self.field.p as int)
                &&& is_prime(self.field.p as int) ==> (self.value as int * v.value as int) % (
                self.field.p as int) == 1
            },
    {
        self.field.inverse(self)
    }

    /// Raises this element to the power given by another element's value,
    /// which is treated as a plain nonnegative integer.
    pub fn xor(&self, exponent: &FieldElement) -> (r: FieldElement)
        requires
            self.wf(),
        ensures
            r.field == self.field,
            r.wf(),
            r.value as int == f_pow(
                self.value as int,
                exponent.value as nat,
                self.field.p as int,
            ),
    {
        FieldElement {
            value: pow_mod(self.value, exponent.value, self.field.p),
            field: self.field,
        }
    }

    /// Value equality; the moduli are not compared.
    pub fn eq(&self, other: &FieldElement) -> (r: bool)
        ensures
            r == (self.value == other.value),
    {
        self.value == other.value
    }

    /// Value inequality; the moduli are not compared.
    pub fn neq(&self, other: &FieldElement) -> (r: bool)
        ensures
            r == (self.value != other.value),
    {
        self.value != other.value
    }

    /// Whether this element is the additive identity.
    pub fn is_zero(&self) -> (r: bool)
        ensures
            r == (self.value == 0),
    {
        self.value == 0
    }
}

/// The character of one digit value below ten.
pub open spec fn digit_char(d: nat) -> char {
    if d == 0 {
        '0'
    } else if d == 1 {
        '1'
    } else if d == 2 {
        '2'
    } else if d == 3 {
        '3'
    } else if d == 4 {
        '4'
    } else if d == 5 {
        '5'
    } else if d == 6 {
        '6'
    } else if d == 7 {
        '7'
    } else if d == 8 {
        '8'
    } else {
        '9'
    }
}

/// The decimal digits of `n`, most significant first, without leading
/// zeros (a single zero digit for zero).
pub open spec fn dec_repr(n: nat) -> Seq<char>
    decreases n,
{
    if n < 10 {
        seq![digit_char(n)]
    } else {
        dec_repr(n / 10).push(digit_char(n % 10))
    }
}

/// The binary digits of `n`, most significant first, without leading
/// zeros (a single zero digit for zero).
pub open spec fn bin_repr(n: nat) -> Seq<char>
    decreases n,
{
    if n < 2 {
        seq![digit_char(n)]
    } else {
        bin_repr(n / 2).push(digit_char(n % 2))
    }
}

/// The character of one digit value.
fn digit_char_exec(d: u128) -> (c: char)
    requires
        d < 10,
    ensures
        c == digit_char(d as nat),
{
    if d == 0 {
        '0'
    } else if d == 1 {
        '1'
    } else if d == 2 {
        '2'
    } else if d == 3 {
        '3'
    } else if d == 4 {
        '4'
    } else if d == 5 {
        '5'
    } else if d == 6 {
        '6'
    } else if d == 7 {
        '7'
    } else if d == 8 {
        '8'
    } else {
        '9'
    }
}

/// Relies on String's FromIterator impl: collecting characters yields the
/// string holding exactly those characters in order.
#[verifier::external_body]
fn chars_to_string(v: &Vec<char>) -> (s: String)
    ensures
        s@ == v@,
{
    v.iter().collect()
}

impl FieldElement {
    /// The decimal form of this element's value.
    pub fn str(&self) -> (s: String)
        ensures
            s@ == dec_repr(self.value as nat),
    {
        let mut digits: Vec<char> = Vec::new();
        let v = self.value;
        digits.insert(0, digit_char_exec(v % 10));
        let mut n = v / 10;
        proof {
            assert(digits@ =~= seq![digit_char((v % 10) as nat)]);
            if v < 10 {
                assert(dec_repr(v as nat) == seq![digit_char(v as nat)]);
            } else {
                assert(dec_repr((v / 10) as nat).push(digit_char((v % 10) as nat)) =~= dec_repr(
                    (v / 10) as nat,
                ) + digits@);
            }
        }
        while n > 0
            invariant
                dec_repr(v as nat) == (if n > 0 {
                    dec_repr(n as nat)
                } else {
                    Seq::<char>::empty()
                }) + digits@,
            decreases n,
        {
            let ghost digits0 = digits@;
            let ghost n0 = n as nat;
            digits.insert(0, digit_char_exec(n % 10));
            n = n / 10;
            proof {
                assert(digits@ =~= seq![digit_char((n0 % 10) as nat)] + digits0);
                if n0 < 10 {
                    assert(dec_repr(n0) =~= seq![digit_char(n0)]);
                    assert(dec_repr(n0) + digits0 =~= digits@);
                } else {
                    assert(dec_repr(n0) =~= dec_repr(n0 / 10).push(digit_char(n0 % 10)));
                    assert(dec_repr(n0 / 10).push(digit_char(n0 % 10)) + digits0 =~= dec_repr(
                        n0 / 10,
                    ) + digits@);
                }
                assert(dec_repr(v as nat) == (if n > 0 {
                    dec_repr(n as nat)
                } else {
                    Seq::<char>::empty()
                }) + digits@);
            }
        }
        proof {
            assert(dec_repr(v as nat) =~= Seq::<char>::empty() + digits@);
            assert(dec_repr(v as nat) =~= digits@);
        }
        chars_to_string(&digits)
    }

    /// The binary form of this element's value.
    pub fn bytes(&self) -> (s: String)
        ensures
            s@ == bin_repr(self.value as nat),
    {
        let mut digits: Vec<char> = Vec::new();
        let v = self.value;
        digits.insert(0, digit_char_exec(v % 2));
        let mut n = v / 2;
        proof {
            assert(digits@ =~= seq![digit_char((v % 2) as nat)]);
            if v < 2 {
                assert(bin_repr(v as nat) == seq![digit_char(v as nat)]);
            } else {
                assert(bin_repr((v / 2) as nat).push(digit_char((v % 2) as nat)) =~= bin_repr(
                    (v / 2) as nat,
                ) + digits@);
            }
        }
        while n > 0
            invariant
                bin_repr(v as nat) == (if n > 0 {
                    bin_repr(n as nat)
                } else {
                    Seq::<char>::empty()
                }) + digits@,
            decreases n,
        {
            let ghost digits0 = digits@;
            let ghost n0 = n as nat;
            digits.insert(0, digit_char_exec(n % 2));
            n = n / 2;
            proof {
                assert(digits@ =~= seq![digit_char((n0 % 2) as nat)] + digits0);
                if n0 < 2 {
                    assert(bin_repr(n0) =~= seq![digit_char(n0)]);
                    assert(bin_repr(n0) + digits0 =~= digits@);
                } else {
                    assert(bin_repr(n0) =~= bin_repr(n0 / 2).push(digit_char(n0 % 2)));
                    assert(bin_repr(n0 / 2).push(digit_char(n0 % 2)) + digits0 =~= bin_repr(
                        n0 / 2,
                    ) + digits@);
                }
                assert(bin_repr(v as nat) == (if n > 0 {
                    bin_repr(n as nat)
                } else {
                    Seq::<char>::empty()
                }) + digits@);
            }
        }
        proof {
            assert(bin_repr(v as nat) =~= Seq::<char>::empty() + digits@);
            assert(bin_repr(v as nat) =~= digits@);
        }
        chars_to_string(&digits)
    }
}

/// One squaring step along the generator's power chain.
proof fn lemma_order_step(v: int, k: nat)
    requires
        0 <= v < CANONICAL_PRIME as int,
        f_pow(CANONICAL_GENERATOR as int, pow2(k), CANONICAL_PRIME as int) == v,
    ensures
        f_pow(CANONICAL_GENERATOR as int, pow2((k + 1) as nat), CANONICAL_PRIME as int) == (v
            * v) % (CANONICAL_PRIME as int),
{
    let g = CANONICAL_GENERATOR as int;
    let p = CANONICAL_PRIME as int;
    lemma_pow2_unfold((k + 1) as nat);
    lemma_pow_adds(g, pow2(k), pow2(k));
    lemma_mul_mod_noop(pow(g, pow2(k)), pow(g, pow2(k)), p);
    lemma_small_mod(v as nat, CANONICAL_PRIME as nat);
}

/// A stretch of the generator's squaring chain, by literal arithmetic.
#[verifier::spinoff_prover]
proof fn lemma_order_chain_0()
    requires
        f_pow(CANONICAL_GENERATOR as int, pow2(0), CANONICAL_PRIME as int) == 85408008396924667383611388730472331217,
    ensures
        f_pow(CANONICAL_GENERATOR as int, pow2(17), CANONICAL_PRIME as int) == 80416519481334871588817435157238859049,
{
    lemma_order_step(85408008396924667383611388730472331217, 0);
    assert(f_pow(CANONICAL_GENERATOR as int, pow2(1), CANONICAL_PRIME as int) == 149224634558074809886965749048363504499);
    lemma_order_step(149224634558074809886965749048363504499, 1);
    assert(f_pow(CANONICAL_GENERATOR as int, pow2(2), CANONICAL_PRIME as int) == 196162427740603549034094478475071502895);
    lemma_order_step(196162427740603549034094478475071502895, 2);
    assert(f_pow(CANONICAL_GENERATOR as int, pow2(3), CANONICAL_PRIME as int) == 116907268213658073643575533712566658409);
    lemma_order_step(116907268213658073643575533712566658409, 3);
    assert(f_pow(CANONICAL_GENERATOR as int, pow2(4), CANONICAL_PRIME as int) == 166617961947997291532655829812349960164);
    lemma_order_step(166617961947997291532655829812349960164, 4);
    assert(f_pow(CANONICAL_GENERATOR as int, pow2(5), CANONICAL_PRIME as int) == 66539852496339537101639054531930604572);
    lemma_order_step(66539852496339537101639054531930604572, 5);
    assert(f_pow(CANONICAL_GENERATOR as int, pow2(6), CANONICAL_PRIME as int) == 11440213797608215834996383946810379256);
    lemma_order_step(11440213797608215834996383946810379256, 6);
    assert(f_pow(CANONICAL_GENERATOR as int, pow2(7), CANONICAL_PRIME as int) == 17602296786744439286762978807761752841);
    lemma_order_step(17602296786744439286762978807761752841, 7);
    assert(f_pow(CANONICAL_GENERATOR as int, pow2(8), CANONICAL_PRIME as int) == 199541424264935087850924453643565512551);
    lemma_order_step(199541424264935087850924453643565512551, 8);
    assert(f_pow(CANONICAL_GENERATOR as int, pow2(9), CANONICAL_PRIME as int) == 246850224108186744029793303077107928002);
    lemma_order_step(246850224108186744029793303077107928002, 9);
    assert(f_pow(CANONICAL_GENERATOR as int, pow2(10), CANONICAL_PRIME as int) == 167821236365404291148050121994212534469);
    lemma_order_step(167821236365404291148050121994212534469, 10);
    assert(f_pow(CANONICAL_GENERATOR as int, pow2(11), CANONICAL_PRIME as int) == 88976046038924257398602493835937884988);
    lemma_order_step(88976046038924257398602493835937884988, 11);
    assert(f_pow(CANONICAL_GENERATOR as int, pow2(12), CANONICAL_PRIME as int) == 113311751783716775014335921307100660215);
    lemma_order_step(113311751783716775014335921307100660215, 12);
    assert(f_pow(CANONICAL_GENERATOR as int, pow2(13), CANONICAL_PRIME as int) == 252518172258572391743594285991950099575);
    lemma_order_step(252518172258572391743594285991950099575, 13);
    assert(f_pow(CANONICAL_GENERATOR as int, pow2(14), CANONICAL_PRIME as int) == 11299117659779408681013300157561799534);
    lemma_order_step(11299117659779408681013300157561799534, 14);
    assert(f_pow(CANONICAL_GENERATOR as int, pow2(15), CANONICAL_PRIME as int) == 270412624064662740304871610389070347221);
    lemma_order_step(270412624064662740304871610389070347221, 15);
    assert(f_pow(CANONICAL_GENERATOR as int, pow2(16), CANONICAL_PRIME as int) == 107947943573123063506061990015412277862);
    lemma_order_step(107947943573123063506061990015412277862, 16);
    assert(f_pow(CANONICAL_GENERATOR as int, pow2(17), CANONICAL_PRIME as int) == 80416519481334871588817435157238859049);
}

/// A stretch of the generator's squaring chain, by literal arithmetic.
#[verifier::spinoff_prover]
proof fn lemma_order_chain_1()
    requires
        f_pow(CANONICAL_GENERATOR as int, pow2(17), CANONICAL_PRIME as int) == 80416519481334871588817435157238859049,
    ensures
        f_pow(CANONICAL_GENERATOR as int, pow2(34), CANONICAL_PRIME as int) == 122164916714994622816075438467735778924,
{
    lemma_order_step(80416519481334871588817435157238859049, 17);
    assert(f_pow(CANONICAL_GENERATOR as int, pow2(18), CANONICAL_PRIME as int) == 225121490872289251628820053790942300823);
    lemma_order_step(225121490872289251628820053790942300823, 18);
    assert(f_pow(CANONICAL_GENERATOR as int, pow2(19), CANONICAL_PRIME as int) == 261542952432975256673517305685335932442);
    lemma_order_step(261542952432975256673517305685335932442, 19);
    assert(f_pow(CANONICAL_GENERATOR as int, pow2(20), CANONICAL_PRIME as int) == 255386618866870105815482582995418345528);
    lemma_order_step(255386618866870105815482582995418345528, 20);
    assert(f_pow(CANONICAL_GENERATOR as int, pow2(21), CANONICAL_PRIME as int) == 169357868963646291131969861540516148345);
    lemma_order_step(169357868963646291131969861540516148345, 21);
    assert(f_pow(CANONICAL_GENERATOR as int, pow2(22), CANONICAL_PRIME as int) == 42860547447461522328132211891982695648);
    lemma_order_step(42860547447461522328132211891982695648, 22);
    assert(f_pow(CANONICAL_GENERATOR as int, pow2(23), CANONICAL_PRIME as int) == 247455619237964463369664434510801692452);
    lemma_order_step(247455619237964463369664434510801692452, 23);
    assert(f_pow(CANONICAL_GENERATOR as int, pow2(24), CANONICAL_PRIME as int) == 130122049647530062205581222296118697477);
    lemma_order_step(130122049647530062205581222296118697477, 24);
    assert(f_pow(CANONICAL_GENERATOR as int, pow2(25), CANONICAL_PRIME as int) == 180551018904150520211061380083100186190);
    lemma_order_step(180551018904150520211061380083100186190, 25);
    assert(f_pow(CANONICAL_GENERATOR as int, pow2(26), CANONICAL_PRIME as int) == 224760921383767948157608946181935986226);
    lemma_order_step(224760921383767948157608946181935986226, 26);
    assert(f_pow(CANONICAL_GENERATOR as int, pow2(27), CANONICAL_PRIME as int) == 176992033890563115156737092951553092095);
    lemma_order_step(176992033890563115156737092951553092095, 27);
    assert(f_pow(CANONICAL_GENERATOR as int, pow2(28), CANONICAL_PRIME as int) == 27682845242716721946598882822503610202);
    lemma_order_step(27682845242716721946598882822503610202, 28);
    assert(f_pow(CANONICAL_GENERATOR as int, pow2(29), CANONICAL_PRIME as int) == 108002185358140313573024299302487023714);
    lemma_order_step(108002185358140313573024299302487023714, 29);
    assert(f_pow(CANONICAL_GENERATOR as int, pow2(30), CANONICAL_PRIME as int) == 62939139381922072894452418990800650140);
    lemma_order_step(62939139381922072894452418990800650140, 30);
    assert(f_pow(CANONICAL_GENERATOR as int, pow2(31), CANONICAL_PRIME as int) == 57924891631807238565598727485572045644);
    lemma_order_step(57924891631807238565598727485572045644, 31);
    assert(f_pow(CANONICAL_GENERATOR as int, pow2(32), CANONICAL_PRIME as int) == 124100165001946951453904346266445263568);
    lemma_order_step(124100165001946951453904346266445263568, 32);
    assert(f_pow(CANONICAL_GENERATOR as int, pow2(33), CANONICAL_PRIME as int) == 17790046619295832126019970320279295517);
    lemma_order_step(17790046619295832126019970320279295517, 33);
    assert(f_pow(CANONICAL_GENERATOR as int, pow2(34), CANONICAL_PRIME as int) == 122164916714994622816075438467735778924);
}

/// A stretch of the generator's squaring chain, by literal arithmetic.
#[verifier::spinoff_prover]
proof fn lemma_order_chain_2()
    requires
        f_pow(CANONICAL_GENERATOR as int, pow2(34), CANONICAL_PRIME as int) == 122164916714994622816075438467735778924,
    ensures
        f_pow(CANONICAL_GENERATOR as int, pow2(51), CANONICAL_PRIME as int) == 139778377801951755471378484836047612481,
{
    lemma_order_step(122164916714994622816075438467735778924, 34);
    assert(f_pow(CANONICAL_GENERATOR as int, pow2(35), CANONICAL_PRIME as int) == 13786098917239544716937413746546575312);
    lemma_order_step(13786098917239544716937413746546575312, 35);
    assert(f_pow(CANONICAL_GENERATOR as int, pow2(36), CANONICAL_PRIME as int) == 185263851514126330133912249213886199221);
    lemma_order_step(185263851514126330133912249213886199221, 36);
    assert(f_pow(CANONICAL_GENERATOR as int, pow2(37), CANONICAL_PRIME as int) == 179244674670192837828247893482562699105);
    lemma_order_step(179244674670192837828247893482562699105, 37);
    assert(f_pow(CANONICAL_GENERATOR as int, pow2(38), CANONICAL_PRIME as int) == 20563719943151555632205195012007115505);
    lemma_order_step(20563719943151555632205195012007115505, 38);
    assert(f_pow(CANONICAL_GENERATOR as int, pow2(39), CANONICAL_PRIME as int) == 140621402111036775988008772915844879174);
    lemma_order_step(140621402111036775988008772915844879174, 39);
    assert(f_pow(CANONICAL_GENERATOR as int, pow2(40), CANONICAL_PRIME as int) == 202836202521740724160226012827507627891);
    lemma_order_step(202836202521740724160226012827507627891, 40);
    assert(f_pow(CANONICAL_GENERATOR as int, pow2(41), CANONICAL_PRIME as int) == 23027356669772877248389090475997951526);
    lemma_order_step(23027356669772877248389090475997951526, 41);
    assert(f_pow(CANONICAL_GENERATOR as int, pow2(42), CANONICAL_PRIME as int) == 58138121265556465467198353860315416106);
    lemma_order_step(58138121265556465467198353860315416106, 42);
    assert(f_pow(CANONICAL_GENERATOR as int, pow2(43), CANONICAL_PRIME as int) == 165266553723404018475348156398223269877);
    lemma_order_step(165266553723404018475348156398223269877, 43);
    assert(f_pow(CANONICAL_GENERATOR as int, pow2(44), CANONICAL_PRIME as int) == 261141639789913469346277529426114455260);
    lemma_order_step(261141639789913469346277529426114455260, 44);
    assert(f_pow(CANONICAL_GENERATOR as int, pow2(45), CANONICAL_PRIME as int) == 58728008449227361815617982044258415329);
    lemma_order_step(58728008449227361815617982044258415329, 45);
    assert(f_pow(CANONICAL_GENERATOR as int, pow2(46), CANONICAL_PRIME as int) == 37725989879039022500469842541563242074);
    lemma_order_step(37725989879039022500469842541563242074, 46);
    assert(f_pow(CANONICAL_GENERATOR as int, pow2(47), CANONICAL_PRIME as int) == 60681604994722136887109123241705708294);
    lemma_order_step(60681604994722136887109123241705708294, 47);
    assert(f_pow(CANONICAL_GENERATOR as int, pow2(48), CANONICAL_PRIME as int) == 141194708474709860713418838910853647399);
    lemma_order_step(141194708474709860713418838910853647399, 48);
    assert(f_pow(CANONICAL_GENERATOR as int, pow2(49), CANONICAL_PRIME as int) == 114111171465583200206545561993065702547);
    lemma_order_step(114111171465583200206545561993065702547, 49);
    assert(f_pow(CANONICAL_GENERATOR as int, pow2(50), CANONICAL_PRIME as int) == 133809604871796689988030087412326146557);
    lemma_order_step(133809604871796689988030087412326146557, 50);
    assert(f_pow(CANONICAL_GENERATOR as int, pow2(51), CANONICAL_PRIME as int) == 139778377801951755471378484836047612481);
}

/// A stretch of the generator's squaring chain, by literal arithmetic.
#[verifier::spinoff_prover]
proof fn lemma_order_chain_3()
    requires
        f_pow(CANONICAL_GENERATOR as int, pow2(51), CANONICAL_PRIME as int) == 139778377801951755471378484836047612481,
    ensures
        f_pow(CANONICAL_GENERATOR as int, pow2(68), CANONICAL_PRIME as int) == 164609129545297704292836920354710862498,
{
    lemma_order_step(139778377801951755471378484836047612481, 51);
    assert(f_pow(CANONICAL_GENERATOR as int, pow2(52), CANONICAL_PRIME as int) == 268724245828496293570156221921880532962);
    lemma_order_step(268724245828496293570156221921880532962, 52);
    assert(f_pow(CANONICAL_GENERATOR as int, pow2(53), CANONICAL_PRIME as int) == 3958032543719356951799974873689414320);
    lemma_order_step(3958032543719356951799974873689414320, 53);
    assert(f_pow(CANONICAL_GENERATOR as int, pow2(54), CANONICAL_PRIME as int) == 53059386756353717559522727970609300717);
    lemma_order_step(53059386756353717559522727970609300717, 54);
    assert(f_pow(CANONICAL_GENERATOR as int, pow2(55), CANONICAL_PRIME as int) == 164705897179045511576021990306356833063);
    lemma_order_step(164705897179045511576021990306356833063, 55);
    assert(f_pow(CANONICAL_GENERATOR as int, pow2(56), CANONICAL_PRIME as int) == 105295318520168687186049693150401624994);
    lemma_order_step(105295318520168687186049693150401624994, 56);
    assert(f_pow(CANONICAL_GENERATOR as int, pow2(57), CANONICAL_PRIME as int) == 16699477141478102951009382564178171941);
    lemma_order_step(16699477141478102951009382564178171941, 57);
    assert(f_pow(CANONICAL_GENERATOR as int, pow2(58), CANONICAL_PRIME as int) == 149055539229067169652728748735484291821);
    lemma_order_step(149055539229067169652728748735484291821, 58);
    assert(f_pow(CANONICAL_GENERATOR as int, pow2(59), CANONICAL_PRIME as int) == 138645589299768798093686386428214378832);
    lemma_order_step(138645589299768798093686386428214378832, 59);
    assert(f_pow(CANONICAL_GENERATOR as int, pow2(60), CANONICAL_PRIME as int) == 131074062203379889953062526448314520318);
    lemma_order_step(131074062203379889953062526448314520318, 60);
    assert(f_pow(CANONICAL_GENERATOR as int, pow2(61), CANONICAL_PRIME as int) == 26536124405033603670713480101053962456);
    lemma_order_step(26536124405033603670713480101053962456, 61);
    assert(f_pow(CANONICAL_GENERATOR as int, pow2(62), CANONICAL_PRIME as int) == 57784280522505321714756156840676764917);
    lemma_order_step(57784280522505321714756156840676764917, 62);
    assert(f_pow(CANONICAL_GENERATOR as int, pow2(63), CANONICAL_PRIME as int) == 7012453248280543647378601745987878829);
    lemma_order_step(7012453248280543647378601745987878829, 63);
    assert(f_pow(CANONICAL_GENERATOR as int, pow2(64), CANONICAL_PRIME as int) == 119309974934634033526503127276303555971);
    lemma_order_step(119309974934634033526503127276303555971, 64);
    assert(f_pow(CANONICAL_GENERATOR as int, pow2(65), CANONICAL_PRIME as int) == 115920883987797986801259308440027594150);
    lemma_order_step(115920883987797986801259308440027594150, 65);
    assert(f_pow(CANONICAL_GENERATOR as int, pow2(66), CANONICAL_PRIME as int) == 149290865943755429783762521900753254994);
    lemma_order_step(149290865943755429783762521900753254994, 66);
    assert(f_pow(CANONICAL_GENERATOR as int, pow2(67), CANONICAL_PRIME as int) == 231142037842266224342672198120388832262);
    lemma_order_step(231142037842266224342672198120388832262, 67);
    assert(f_pow(CANONICAL_GENERATOR as int, pow2(68), CANONICAL_PRIME as int) == 164609129545297704292836920354710862498);
}

/// A stretch of the generator's squaring chain, by literal arithmetic.
#[verifier::spinoff_prover]
proof fn lemma_order_chain_4()
    requires
        f_pow(CANONICAL_GENERATOR as int, pow2(68), CANONICAL_PRIME as int) == 164609129545297704292836920354710862498,
    ensures
        f_pow(CANONICAL_GENERATOR as int, pow2(85), CANONICAL_PRIME as int) == 62020643629271613536358612995472649224,
{
    lemma_order_step(164609129545297704292836920354710862498, 68);
    assert(f_pow(CANONICAL_GENERATOR as int, pow2(69), CANONICAL_PRIME as int) == 50932702601501463798052246008257562581);
    lemma_order_step(50932702601501463798052246008257562581, 69);
    assert(f_pow(CANONICAL_GENERATOR as int, pow2(70), CANONICAL_PRIME as int) == 87996014433354069326265695207609150526);
    lemma_order_step(87996014433354069326265695207609150526, 70);
    assert(f_pow(CANONICAL_GENERATOR as int, pow2(71), CANONICAL_PRIME as int) == 30459465645563241462545685926180803515);
    lemma_order_step(30459465645563241462545685926180803515, 71);
    assert(f_pow(CANONICAL_GENERATOR as int, pow2(72), CANONICAL_PRIME as int) == 230796742234458129108932900195113208666);
    lemma_order_step(230796742234458129108932900195113208666, 72);
    assert(f_pow(CANONICAL_GENERATOR as int, pow2(73), CANONICAL_PRIME as int) == 57339134353009133810797907793724699763);
    lemma_order_step(57339134353009133810797907793724699763, 73);
    assert(f_pow(CANONICAL_GENERATOR as int, pow2(74), CANONICAL_PRIME as int) == 71986082510956851263451977148123322035);
    lemma_order_step(71986082510956851263451977148123322035, 74);
    assert(f_pow(CANONICAL_GENERATOR as int, pow2(75), CANONICAL_PRIME as int) == 47679057791719070864231322410555492847);
    lemma_order_step(47679057791719070864231322410555492847, 75);
    assert(f_pow(CANONICAL_GENERATOR as int, pow2(76), CANONICAL_PRIME as int) == 165826587459566835239990104129175411136);
    lemma_order_step(165826587459566835239990104129175411136, 76);
    assert(f_pow(CANONICAL_GENERATOR as int, pow2(77), CANONICAL_PRIME as int) == 87633478589235870927785904175920872344);
    lemma_order_step(87633478589235870927785904175920872344, 77);
    assert(f_pow(CANONICAL_GENERATOR as int, pow2(78), CANONICAL_PRIME as int) == 175911951539014832173347546270092274198);
    lemma_order_step(175911951539014832173347546270092274198, 78);
    assert(f_pow(CANONICAL_GENERATOR as int, pow2(79), CANONICAL_PRIME as int) == 168180781047028361987806241322463554771);
    lemma_order_step(168180781047028361987806241322463554771, 79);
    assert(f_pow(CANONICAL_GENERATOR as int, pow2(80), CANONICAL_PRIME as int) == 188760366701737051411748298026312469771);
    lemma_order_step(188760366701737051411748298026312469771, 80);
    assert(f_pow(CANONICAL_GENERATOR as int, pow2(81), CANONICAL_PRIME as int) == 137043329739432280743935136466033442567);
    lemma_order_step(137043329739432280743935136466033442567, 81);
    assert(f_pow(CANONICAL_GENERATOR as int, pow2(82), CANONICAL_PRIME as int) == 254811542197935531661802877449773277617);
    lemma_order_step(254811542197935531661802877449773277617, 82);
    assert(f_pow(CANONICAL_GENERATOR as int, pow2(83), CANONICAL_PRIME as int) == 146121351841646199955613554491793313345);
    lemma_order_step(146121351841646199955613554491793313345, 83);
    assert(f_pow(CANONICAL_GENERATOR as int, pow2(84), CANONICAL_PRIME as int) == 202134711252280552281770353669653550211);
    lemma_order_step(202134711252280552281770353669653550211, 84);
    assert(f_pow(CANONICAL_GENERATOR as int, pow2(85), CANONICAL_PRIME as int) == 62020643629271613536358612995472649224);
}

/// A stretch of the generator's squaring chain, by literal arithmetic.
#[verifier::spinoff_prover]
proof fn lemma_order_chain_5()
    requires
        f_pow(CANONICAL_GENERATOR as int, pow2(85), CANONICAL_PRIME as int) == 62020643629271613536358612995472649224,
    ensures
        f_pow(CANONICAL_GENERATOR as int, pow2(102), CANONICAL_PRIME as int) == 124563061566547205452168207223266849609,
{
    lemma_order_step(62020643629271613536358612995472649224, 85);
    assert(f_pow(CANONICAL_GENERATOR as int, pow2(86), CANONICAL_PRIME as int) == 60955409100920546531994404498493215995);
    lemma_order_step(60955409100920546531994404498493215995, 86);
    assert(f_pow(CANONICAL_GENERATOR as int, pow2(87), CANONICAL_PRIME as int) == 267306289615708092041963651785810633313);
    lemma_order_step(267306289615708092041963651785810633313, 87);
    assert(f_pow(CANONICAL_GENERATOR as int, pow2(88), CANONICAL_PRIME as int) == 82886710661896431930683110203913025715);
    lemma_order_step(82886710661896431930683110203913025715, 88);
    assert(f_pow(CANONICAL_GENERATOR as int, pow2(89), CANONICAL_PRIME as int) == 183672562657124655756044190146949222768);
    lemma_order_step(183672562657124655756044190146949222768, 89);
    assert(f_pow(CANONICAL_GENERATOR as int, pow2(90), CANONICAL_PRIME as int) == 132011392005246224365974131170596379858);
    lemma_order_step(132011392005246224365974131170596379858, 90);
    assert(f_pow(CANONICAL_GENERATOR as int, pow2(91), CANONICAL_PRIME as int) == 70175474737685246412980779337185950443);
    lemma_order_step(70175474737685246412980779337185950443, 91);
    assert(f_pow(CANONICAL_GENERATOR as int, pow2(92), CANONICAL_PRIME as int) == 220997914137524785485614782437485244991);
    lemma_order_step(220997914137524785485614782437485244991, 92);
    assert(f_pow(CANONICAL_GENERATOR as int, pow2(93), CANONICAL_PRIME as int) == 171593735460794207840454921346185543981);
    lemma_order_step(171593735460794207840454921346185543981, 93);
    assert(f_pow(CANONICAL_GENERATOR as int, pow2(94), CANONICAL_PRIME as int) == 71288948178855918325178708028277674438);
    lemma_order_step(71288948178855918325178708028277674438, 94);
    assert(f_pow(CANONICAL_GENERATOR as int, pow2(95), CANONICAL_PRIME as int) == 65925256741735993773732873161688574648);
    lemma_order_step(65925256741735993773732873161688574648, 95);
    assert(f_pow(CANONICAL_GENERATOR as int, pow2(96), CANONICAL_PRIME as int) == 223621218216708547223464078625256957762);
    lemma_order_step(223621218216708547223464078625256957762, 96);
    assert(f_pow(CANONICAL_GENERATOR as int, pow2(97), CANONICAL_PRIME as int) == 70183190447477977100017978035181125195);
    lemma_order_step(70183190447477977100017978035181125195, 97);
    assert(f_pow(CANONICAL_GENERATOR as int, pow2(98), CANONICAL_PRIME as int) == 81205103701858762222647973189173115555);
    lemma_order_step(81205103701858762222647973189173115555, 98);
    assert(f_pow(CANONICAL_GENERATOR as int, pow2(99), CANONICAL_PRIME as int) == 246476146805045146772952495119713591992);
    lemma_order_step(246476146805045146772952495119713591992, 99);
    assert(f_pow(CANONICAL_GENERATOR as int, pow2(100), CANONICAL_PRIME as int) == 205585349689748417101142707299351452499);
    lemma_order_step(205585349689748417101142707299351452499, 100);
    assert(f_pow(CANONICAL_GENERATOR as int, pow2(101), CANONICAL_PRIME as int) == 235536536747046009653031169237027907708);
    lemma_order_step(235536536747046009653031169237027907708, 101);
    assert(f_pow(CANONICAL_GENERATOR as int, pow2(102), CANONICAL_PRIME as int) == 124563061566547205452168207223266849609);
}

/// A stretch of the generator's squaring chain, by literal arithmetic.
#[verifier::spinoff_prover]
proof fn lemma_order_chain_6()
    requires
        f_pow(CANONICAL_GENERATOR as int, pow2(102), CANONICAL_PRIME as int) == 124563061566547205452168207223266849609,
    ensures
        f_pow(CANONICAL_GENERATOR as int, pow2(118), CANONICAL_PRIME as int) == 270497897142230380135924736767050121216,
        f_pow(CANONICAL_GENERATOR as int, pow2(119), CANONICAL_PRIME as int) == 1,
{
    lemma_order_step(124563061566547205452168207223266849609, 102);
    assert(f_pow(CANONICAL_GENERATOR as int, pow2(103), CANONICAL_PRIME as int) == 60852861674981758841349565467922926979);
    lemma_order_step(60852861674981758841349565467922926979, 103);
    assert(f_pow(CANONICAL_GENERATOR as int, pow2(104), CANONICAL_PRIME as int) == 47297075848054312102354453716405586435);
    lemma_order_step(47297075848054312102354453716405586435, 104);
    assert(f_pow(CANONICAL_GENERATOR as int, pow2(105), CANONICAL_PRIME as int) == 218316119641727656000523521043738064690);
    lemma_order_step(218316119641727656000523521043738064690, 105);
    assert(f_pow(CANONICAL_GENERATOR as int, pow2(106), CANONICAL_PRIME as int) == 185080982397478044717513752950010250958);
    lemma_order_step(185080982397478044717513752950010250958, 106);
    assert(f_pow(CANONICAL_GENERATOR as int, pow2(107), CANONICAL_PRIME as int) == 106535815141977674204471003459472633885);
    lemma_order_step(106535815141977674204471003459472633885, 107);
    assert(f_pow(CANONICAL_GENERATOR as int, pow2(108), CANONICAL_PRIME as int) == 240639785279454729936319549588094844628);
    lemma_order_step(240639785279454729936319549588094844628, 108);
    assert(f_pow(CANONICAL_GENERATOR as int, pow2(109), CANONICAL_PRIME as int) == 157047144299673000979490264221078274179);
    lemma_order_step(157047144299673000979490264221078274179, 109);
    assert(f_pow(CANONICAL_GENERATOR as int, pow2(110), CANONICAL_PRIME as int) == 11068365217297290165464327737828832066);
    lemma_order_step(11068365217297290165464327737828832066, 110);
    assert(f_pow(CANONICAL_GENERATOR as int, pow2(111), CANONICAL_PRIME as int) == 178902808384765167578311106676137348214);
    lemma_order_step(178902808384765167578311106676137348214, 111);
    assert(f_pow(CANONICAL_GENERATOR as int, pow2(112), CANONICAL_PRIME as int) == 65907963977709178563567092354521124432);
    lemma_order_step(65907963977709178563567092354521124432, 112);
    assert(f_pow(CANONICAL_GENERATOR as int, pow2(113), CANONICAL_PRIME as int) == 59478736836296470922896375673044043947);
    lemma_order_step(59478736836296470922896375673044043947, 113);
    assert(f_pow(CANONICAL_GENERATOR as int, pow2(114), CANONICAL_PRIME as int) == 16698199167658661640320272194027702370);
    lemma_order_step(16698199167658661640320272194027702370, 114);
    assert(f_pow(CANONICAL_GENERATOR as int, pow2(115), CANONICAL_PRIME as int) == 22186728119017901039385635608201850931);
    lemma_order_step(22186728119017901039385635608201850931, 115);
    assert(f_pow(CANONICAL_GENERATOR as int, pow2(116), CANONICAL_PRIME as int) == 131076302407280330469229082343774091404);
    lemma_order_step(131076302407280330469229082343774091404, 116);
    assert(f_pow(CANONICAL_GENERATOR as int, pow2(117), CANONICAL_PRIME as int) == 259052015163170058651980223774986375587);
    lemma_order_step(259052015163170058651980223774986375587, 117);
    assert(f_pow(CANONICAL_GENERATOR as int, pow2(118), CANONICAL_PRIME as int) == 270497897142230380135924736767050121216);
    lemma_order_step(270497897142230380135924736767050121216, 118);
    assert(f_pow(CANONICAL_GENERATOR as int, pow2(119), CANONICAL_PRIME as int) == 1);
}

/// The canonical generator has multiplicative order exactly `2^119`:
/// squaring it 119 times reaches one, and the step before reaches
/// `p - 1`, not one.  Since any element's order in the chain of squares is
/// a power of two, these two facts pin the order.
pub proof fn lemma_generator_order()
    ensures
        f_pow(CANONICAL_GENERATOR as int, pow2(119), CANONICAL_PRIME as int) == 1,
        f_pow(CANONICAL_GENERATOR as int, pow2(118), CANONICAL_PRIME as int) == (
        CANONICAL_PRIME - 1) as int,
{
    let g = CANONICAL_GENERATOR as int;
    let p = CANONICAL_PRIME as int;
    assert(pow2(0) == 1) by {
        lemma_pow0(2);
    }
    lemma_pow1(g);
    lemma_small_mod(CANONICAL_GENERATOR as nat, CANONICAL_PRIME as nat);
    assert(f_pow(g, pow2(0), p) == 85408008396924667383611388730472331217);
    lemma_order_chain_0();
    lemma_order_chain_1();
    lemma_order_chain_2();
    lemma_order_chain_3();
    lemma_order_chain_4();
    lemma_order_chain_5();
    lemma_order_chain_6();
}

// ------------------------------------------------------------------
// Field laws
// ------------------------------------------------------------------
/// Field addition is commutative.
pub proof fn law_add_commutative(a: int, b: int, p: int)
    requires
        p >= 2,
    ensures
        f_add(a, b, p) == f_add(b, a, p),
{
}

/// Field addition is associative.
pub proof fn law_add_associative(a: int, b: int, c: int, p: int)
    requires
        p >= 2,
    ensures
        f_add(f_add(a, b, p), c, p) == f_add(a, f_add(b, c, p), p),
{
    lemma_add_mod_noop(a + b, c, p);
    lemma_add_mod_noop_right((a + b) % p, c, p);
    lemma_mod_twice(a + b, p);
    lemma_add_mod_noop_right(a, b + c, p);
}

/// Zero is the additive identity on canonical residues.
pub proof fn law_add_identity(a: int, p: int)
    requires
        p >= 2,
        0 <= a < p,
    ensures
        f_add(a, 0, p) == a,
{
    lemma_small_mod(a as nat, p as nat);
}

/// Every canonical residue and its negation sum to zero.
pub proof fn law_add_inverse(a: int, p: int)
    requires
        p >= 2,
        0 <= a < p,
    ensures
        f_add(a, f_neg(a, p), p) == 0,
{
    lemma_mod_self_0(p);
    lemma_small_mod(0, p as nat);
    if a == 0 {
    } else {
        lemma_small_mod((p - a) as nat, p as nat);
    }
}

/// Field multiplication is commutative.
pub proof fn law_mul_commutative(a: int, b: int, p: int)
    requires
        p >= 2,
    ensures
        f_mul(a, b, p) == f_mul(b, a, p),
{
    lemma_mul_is_commutative(a, b);
}

/// Field multiplication is associative.
pub proof fn law_mul_associative(a: int, b: int, c: int, p: int)
    requires
        p >= 2,
    ensures
        f_mul(f_mul(a, b, p), c, p) == f_mul(a, f_mul(b, c, p), p),
{
    lemma_mul_mod_noop_left(a * b, c, p);
    lemma_mul_is_associative(a, b, c);
    lemma_mul_mod_noop_right(a, b * c, p);
}

/// One is the multiplicative identity on canonical residues.
pub proof fn law_mul_identity(a: int, p: int)
    requires
        p >= 2,
        0 <= a < p,
    ensures
        f_mul(a, 1, p) == a,
{
    lemma_mul_basics(a);
    lemma_small_mod(a as nat, p as nat);
}

/// Multiplication distributes over addition on residues.
pub proof fn law_distributive(a: int, b: int, c: int, p: int)
    requires
        p >= 2,
    ensures
        f_mul(a, f_add(b, c, p), p) == f_add(f_mul(a, b, p), f_mul(a, c, p), p),
{
    lemma_mul_mod_noop_right(a, b + c, p);
    lemma_mul_is_distributive_add(a, b, c);
    lemma_add_mod_noop(a * b, a * c, p);
}

/// A nonzero element times its inverse is one: the gcd congruence that
/// `inverse` establishes collapses to one over a prime modulus.
pub proof fn law_multiplicative_inverse(a: nat, v: nat, p: nat)
    requires
        is_prime(p as int),
        0 < a < p,
        (a * v) % p == gcd(a, p) % p,
    ensures
        (a * v) % p == 1,
{
    lemma_prime_coprime(a, p);
    lemma_small_mod(1, p);
}

/// A nonzero element has exactly one canonical inverse.
pub proof fn law_inverse_unique(a: nat, v1: nat, v2: nat, p: nat)
    requires
        is_prime(p as int),
        0 < a < p,
        v1 < p,
        v2 < p,
        (a * v1) % p == 1,
        (a * v2) % p == 1,
    ensures
        v1 == v2,
{
    lemma_mul_is_commutative(a as int, v1 as int);
    lemma_mul_is_commutative(a as int, v2 as int);
    assert(a % p == a) by {
        lemma_small_mod(a, p);
    }
    crate::number_theory::lemma_mul_cancel(a, v1, v2, p);
}

/// Division agrees with multiplication by the inverse: the quotient `d`
/// that `divide` certifies equals `a` times any canonical inverse of `b`.
pub proof fn law_divide_is_multiply_inverse(a: nat, b: nat, d: nat, i: nat, p: nat)
    requires
        is_prime(p as int),
        a < p,
        0 < b < p,
        d < p,
        (d * b) % p == a,
        i < p,
        (b * i) % p == 1,
    ensures
        d == (a * i) % p,
{
    let pp = p as int;
    lemma_mul_mod_noop_left(d as int * b as int, i as int, pp);
    lemma_mul_is_associative(d as int, b as int, i as int);
    lemma_mul_mod_noop_right(d as int, b as int * i as int, pp);
    lemma_mul_basics(d as int);
    lemma_small_mod(d, p);
    assert((a * i) as int % pp == (d as int * 1) % pp);
}

} // verus!
