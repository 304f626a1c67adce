//! Spec-level number theory used by the field layer: greatest common
//! divisors, primality, Bezout coefficients, Euclid's lemma, and the
//! existence and uniqueness of modular inverses.

use vstd::prelude::*;
#[allow(unused_imports)]
use vstd::arithmetic::div_mod::*;
#[allow(unused_imports)]
use vstd::arithmetic::mul::*;

verus! {

/// Greatest common divisor by Euclid's recursion, with `gcd(a, 0) == a`.
pub open spec fn gcd(a: nat, b: nat) -> nat
    decreases b,
{
    if b == 0 {
        a
    } else {
        gcd(b, a % b)
    }
}

/// A prime is at least 2 and has no divisor strictly between 1 and itself.
pub open spec fn is_prime(p: int) -> bool {
    p >= 2 && forall|d: int| 1 < d < p ==> #[trigger] (p % d) != 0
}

/// The gcd of two numbers, not both zero, is positive.
pub proof fn lemma_gcd_pos(a: nat, b: nat)
    requires
        a > 0 || b > 0,
    ensures
        gcd(a, b) > 0,
    decreases b,
{
    if b > 0 {
        lemma_gcd_pos(b, a % b);
    }
}

/// A positive divisor of a positive number is no larger than it.
pub proof fn lemma_divisor_le(x: nat, d: nat)
    requires
        d > 0,
        x > 0,
        x % d == 0,
    ensures
        d <= x,
{
    lemma_fundamental_div_mod(x as int, d as int);
    let q = x as int / d as int;
    lemma_mul_is_commutative(q, d as int);
    assert(x as int == q * d);
    if q <= 0 {
        lemma_mul_inequality(q, 0, d as int);
        assert(q * d <= 0 * d);
        assert(false);
    }
    lemma_mul_inequality(1, q, d as int);
    assert(1 * d as int <= q * d);
}

/// The gcd divides both of its arguments.
pub proof fn lemma_gcd_divides(a: nat, b: nat)
    requires
        a > 0 || b > 0,
    ensures
        a % gcd(a, b) == 0,
        b % gcd(a, b) == 0,
    decreases b,
{
    let g = gcd(a, b);
    lemma_gcd_pos(a, b);
    if b == 0 {
        assert(g == a);
        lemma_mod_self_0(a as int);
        lemma_small_mod(0, a);
    } else {
        let r = a % b;
        lemma_gcd_divides(b, r);
        assert(b % g == 0);
        assert(r % g == 0);
        lemma_fundamental_div_mod(a as int, b as int);
        let q = a as int / b as int;
        assert(a as int == b as int * q + r);
        assert((b as int * q) % (g as int) == 0) by {
            lemma_mul_mod_noop_left(b as int, q, g as int);
            assert((b as int * q) % (g as int) == ((b % g) as int * q) % (g as int));
            assert((0int * q) % (g as int) == 0) by {
                lemma_mod_self_0(g as int);
            }
        }
        lemma_add_mod_noop(b as int * q, r as int, g as int);
        assert((b as int * q + r) % (g as int) == (0 + (r % g) as int) % (g as int));
        lemma_mod_twice(r as int, g as int);
        assert(a as int % (g as int) == 0);
    }
}

/// A nonzero residue modulo a prime is coprime to that prime.
pub proof fn lemma_prime_coprime(a: nat, p: nat)
    requires
        is_prime(p as int),
        0 < a < p,
    ensures
        gcd(a, p) == 1,
{
    let g = gcd(a, p);
    lemma_gcd_pos(a, p);
    lemma_gcd_divides(a, p);
    if g != 1 {
        lemma_divisor_le(a, g);
        assert(g <= a < p);
        assert(1 < g < p);
        assert(p as int % (g as int) != 0);
        assert(false);
    }
}

/// Bezout's identity: returns integer coefficients whose combination of
/// `a` and `b` equals their gcd.
pub proof fn lemma_bezout(a: nat, b: nat) -> (st: (int, int))
    ensures
        st.0 * a + st.1 * b == gcd(a, b),
    decreases b,
{
    if b == 0 {
        lemma_mul_basics(a as int);
        lemma_mul_basics(b as int);
        (1int, 0int)
    } else {
        let (s0, t0) = lemma_bezout(b, a % b);
        let q = a as int / b as int;
        let r = a as int % b as int;
        lemma_fundamental_div_mod(a as int, b as int);
        assert(r == a - q * b);
        assert(t0 * a + (s0 - t0 * q) * b == gcd(a, b)) by (nonlinear_arith)
            requires
                r == a - q * b,
                s0 * b + t0 * r == gcd(a, b),
        ;
        (t0, s0 - t0 * q)
    }
}

/// Euclid's lemma: a prime dividing a product divides one of the factors.
pub proof fn lemma_euclid(x: nat, y: nat, p: nat)
    requires
        is_prime(p as int),
        (x * y) % p == 0,
        x % p != 0,
    ensures
        y % p == 0,
{
    let a = x % p;
    lemma_mod_bound(x as int, p as int);
    lemma_prime_coprime(a, p);
    let (s, t) = lemma_bezout(a, p);
    assert(s * a + t * p == 1);
    assert((a * y) % p == 0) by {
        lemma_mul_mod_noop_left(x as int, y as int, p as int);
    }
    lemma_fundamental_div_mod(a as int * y as int, p as int);
    let k = (a as int * y as int) / (p as int);
    assert(a as int * y as int == p as int * k);
    assert(y as int == (s * k + t * y) * p) by (nonlinear_arith)
        requires
            s * a + t * p == 1,
            a as int * y as int == p as int * k,
    ;
    lemma_mod_multiples_basic(s * k + t * y as int, p as int);
    assert(((s * k + t * y) * p) % (p as int) == 0);
}

/// Multiplication by a unit is injective on canonical residues.
pub proof fn lemma_mul_cancel(b: nat, x: nat, y: nat, p: nat)
    requires
        is_prime(p as int),
        b % p != 0,
        x < p,
        y < p,
        (x * b) % p == (y * b) % p,
    ensures
        x == y,
{
    if x != y {
        let (hi, lo): (nat, nat) = if x > y {
            (x, y)
        } else {
            (y, x)
        };
        let d = (hi - lo) as nat;
        assert(0 < d < p);
        assert((hi * b - lo * b) % (p as int) == 0) by {
            lemma_sub_mod_noop(hi as int * b as int, lo as int * b as int, p as int);
            lemma_small_mod(0, p);
            assert((hi * b) % p == (lo * b) % p);
            assert(((hi * b) % p - (lo * b) % p) % (p as int) == 0);
        }
        assert(hi * b - lo * b == d * b) by (nonlinear_arith)
            requires
                d == hi - lo,
        ;
        assert((b * d) % p == 0) by {
            lemma_mul_is_commutative(b as int, d as int);
        }
        lemma_euclid(b, d, p);
        assert(d % p == 0);
        lemma_small_mod(d, p);
        assert(false);
    }
}

/// Every nonzero canonical residue modulo a prime has an inverse in range.
pub proof fn lemma_inverse_exists(a: nat, p: nat) -> (r: int)
    requires
        is_prime(p as int),
        0 < a < p,
    ensures
        0 <= r < p,
        (a * r) % (p as int) == 1,
{
    lemma_prime_coprime(a, p);
    let (s, t) = lemma_bezout(a, p);
    assert(s * a + t * p == 1);
    let r = s % (p as int);
    lemma_mod_bound(s, p as int);
    assert((a * r) % (p as int) == 1) by {
        lemma_mul_mod_noop_right(a as int, s, p as int);
        assert((a * s) % (p as int) == (a * r) % (p as int));
        assert(a as int * s == -t * p + 1) by (nonlinear_arith)
            requires
                s * a + t * p == 1,
        ;
        lemma_mod_multiples_vanish(-t, 1, p as int);
        lemma_small_mod(1, p);
    }
    r
}

} // verus!
