//! Verified modular arithmetic on `u128` residues.
//!
//! The canonical prime of this library is close to `2^128`, so a product of
//! two residues does not fit any machine integer.  Multiplication therefore
//! runs as double-and-add over modular additions, and exponentiation as
//! square-and-multiply over modular multiplications; every step stays below
//! `2^128`.

use vstd::prelude::*;
#[allow(unused_imports)]
use vstd::arithmetic::div_mod::*;
#[allow(unused_imports)]
use vstd::arithmetic::mul::*;
#[allow(unused_imports)]
use vstd::arithmetic::power::*;

verus! {

/// Field addition: `(a + b) mod p`.
pub open spec fn f_add(a: int, b: int, p: int) -> int {
    (a + b) % p
}

/// Field subtraction, written to avoid a negative intermediate value.
pub open spec fn f_sub(a: int, b: int, p: int) -> int {
    (p + a - b) % p
}

/// Field negation: `(p - a) mod p`.
pub open spec fn f_neg(a: int, p: int) -> int {
    (p - a) % p
}

/// Field multiplication: `(a * b) mod p`.
pub open spec fn f_mul(a: int, b: int, p: int) -> int {
    (a * b) % p
}

/// Field exponentiation: `b^e mod p`.
pub open spec fn f_pow(b: int, e: nat, p: int) -> int {
    pow(b, e) % p
}

/// `n` is an exact power of two.
pub open spec fn is_pow2(n: nat) -> bool
    decreases n,
{
    if n == 0 {
        false
    } else if n == 1 {
        true
    } else {
        n % 2 == 0 && is_pow2(n / 2)
    }
}

/// Between two powers of two, the smaller is at most half the larger.
pub proof fn lemma_pow2_ordering(a: nat, b: nat)
    requires
        is_pow2(a),
        is_pow2(b),
        a < b,
    ensures
        b % 2 == 0,
        is_pow2(b / 2),
        a <= b / 2,
    decreases b,
{
    assert(b >= 2);
    if a > 1 {
        lemma_pow2_ordering(a / 2, b / 2);
    }
}

/// Modular addition of two canonical residues.
pub fn add_mod(a: u128, b: u128, p: u128) -> (r: u128)
    requires
        a < p,
        b < p,
    ensures
        r < p,
        r as int == f_add(a as int, b as int, p as int),
{
    let r = if a >= p - b {
        a - (p - b)
    } else {
        a + b
    };
    proof {
        if a >= p - b {
            lemma_fundamental_div_mod_converse_mod(a + b, p as int, 1, a + b - p);
        } else {
            lemma_fundamental_div_mod_converse_mod(a + b, p as int, 0, a + b);
        }
    }
    r
}

/// Modular subtraction of two canonical residues.
pub fn sub_mod(a: u128, b: u128, p: u128) -> (r: u128)
    requires
        a < p,
        b < p,
    ensures
        r < p,
        r as int == f_sub(a as int, b as int, p as int),
{
    let r = if a >= b {
        a - b
    } else {
        a + (p - b)
    };
    proof {
        if a >= b {
            lemma_fundamental_div_mod_converse_mod(p + a - b, p as int, 1, a - b);
        } else {
            lemma_fundamental_div_mod_converse_mod(p + a - b, p as int, 0, p + a - b);
        }
    }
    r
}

/// Modular negation of a canonical residue.
pub fn neg_mod(a: u128, p: u128) -> (r: u128)
    requires
        a < p,
    ensures
        r < p,
        r as int == f_neg(a as int, p as int),
{
    if a == 0 {
        proof {
            lemma_mod_self_0(p as int);
        }
        0
    } else {
        proof {
            lemma_small_mod((p - a) as nat, p as nat);
        }
        p - a
    }
}

/// Congruence step used by the double-and-add loop: replacing the summand
/// `x * k` by `(x mod p) * k` does not change the value modulo `p`.
pub proof fn lemma_scaled_congruence(acc: int, x: int, k: int, p: int)
    requires
        p > 0,
    ensures
        (acc + (x % p) * k) % p == (acc + x * k) % p,
{
    lemma_mul_mod_noop_left(x, k, p);
    lemma_add_mod_noop_right(acc, (x % p) * k, p);
    lemma_add_mod_noop_right(acc, x * k, p);
}

/// Folding a reduced summand into the head of a sum keeps the value mod `p`.
pub proof fn lemma_head_congruence(c: int, rest: int, p: int)
    requires
        p > 0,
    ensures
        ((c % p) + rest) % p == (c + rest) % p,
{
    lemma_add_mod_noop(c, rest, p);
    lemma_add_mod_noop(c % p, rest, p);
    lemma_mod_twice(c, p);
}

/// Modular multiplication of two canonical residues, by double-and-add;
/// no intermediate value exceeds `u128`.
pub fn mul_mod(a: u128, b: u128, p: u128) -> (r: u128)
    requires
        a < p,
        b < p,
    ensures
        r < p,
        r as int == f_mul(a as int, b as int, p as int),
{
    let mut acc: u128 = 0;
    let mut x: u128 = a;
    let mut y: u128 = b;
    while y > 0
        invariant
            p >= 1,
            acc < p,
            x < p,
            (acc + x * y) % (p as int) == (a * b) % (p as int),
        decreases y,
    {
        let ghost acc0 = acc as int;
        let ghost x0 = x as int;
        let ghost k = (y / 2) as int;
        let odd = y % 2 == 1;
        if odd {
            acc = add_mod(acc, x, p);
        }
        x = add_mod(x, x, p);
        y = y / 2;
        proof {
            let pp = p as int;
            if odd {
                assert(acc as int == (acc0 + x0) % pp);
                lemma_scaled_congruence((acc0 + x0) % pp, 2 * x0, k, pp);
                lemma_head_congruence(acc0 + x0, 2 * x0 * k, pp);
                assert(acc0 + x0 + 2 * x0 * k == acc0 + x0 * (2 * k + 1)) by (nonlinear_arith);
                assert((acc as int + (x as int) * k) % pp == (a * b) % pp);
            } else {
                lemma_scaled_congruence(acc0, 2 * x0, k, pp);
                assert(acc0 + 2 * x0 * k == acc0 + x0 * (2 * k)) by (nonlinear_arith);
                assert((acc as int + (x as int) * k) % pp == (a * b) % pp);
            }
        }
    }
    proof {
        lemma_small_mod(acc as nat, p as nat);
    }
    acc
}

/// Modular exponentiation of a canonical residue, by square-and-multiply;
/// the exponent is an ordinary integer, not reduced modulo `p - 1`.
pub fn pow_mod(b: u128, e: u128, p: u128) -> (r: u128)
    requires
        p >= 2,
        b < p,
    ensures
        r < p,
        r as int == f_pow(b as int, e as nat, p as int),
{
    let mut acc: u128 = 1;
    let mut base: u128 = b;
    let mut k: u128 = e;
    while k > 0
        invariant
            p >= 2,
            acc < p,
            base < p,
            (acc * pow(base as int, k as nat)) % (p as int) == pow(b as int, e as nat) % (
            p as int),
        decreases k,
    {
        let ghost acc0 = acc as int;
        let ghost base0 = base as int;
        let ghost m = (k / 2) as nat;
        let odd = k % 2 == 1;
        if odd {
            acc = mul_mod(acc, base, p);
        }
        base = mul_mod(base, base, p);
        k = k / 2;
        proof {
            let pp = p as int;
            lemma_square_is_pow2(base0);
            lemma_pow_multiplies(base0, 2, m);
            assert(pow(base0, 2 * m) == pow(base0 * base0, m));
            lemma_pow_mod_noop(base0 * base0, m, pp);
            assert(pow(base as int, m) % pp == pow(base0 * base0, m) % pp);
            lemma_small_mod(acc as nat, p as nat);
            lemma_small_mod(acc0 as nat, p as nat);
            if odd {
                assert(acc as int == (acc0 * base0) % pp);
                lemma_pow_adds(base0, 1, 2 * m);
                lemma_pow1(base0);
                assert(pow(base0, (2 * m + 1) as nat) == base0 * pow(base0, 2 * m));
                // (acc' * pow(base', m)) % p == (acc0 * base0 * pow(base0, 2m)) % p
                lemma_mul_mod_noop(acc0 * base0, pow(base0, 2 * m), pp);
                lemma_mul_mod_noop(acc as int, pow(base as int, m), pp);
                assert((acc as int * pow(base as int, m)) % pp == ((acc0 * base0) % pp * (pow(
                    base0 * base0,
                    m,
                ) % pp)) % pp);
                lemma_mul_mod_noop(acc0 * base0, pow(base0 * base0, m), pp);
                assert(acc0 * base0 * pow(base0, 2 * m) == acc0 * pow(base0, (2 * m + 1) as nat))
                    by (nonlinear_arith)
                    requires
                        pow(base0, (2 * m + 1) as nat) == base0 * pow(base0, 2 * m),
                ;
                assert((acc as int * pow(base as int, k as nat)) % pp == pow(b as int, e as nat)
                    % pp);
            } else {
                assert(acc as int == acc0);
                lemma_mul_mod_noop(acc0, pow(base0, 2 * m), pp);
                lemma_mul_mod_noop(acc0, pow(base as int, m), pp);
                assert((acc0 * pow(base as int, m)) % pp == ((acc0 % pp) * (pow(base0 * base0, m)
                    % pp)) % pp);
                lemma_mul_mod_noop(acc0, pow(base0 * base0, m), pp);
                assert((acc as int * pow(base as int, k as nat)) % pp == pow(b as int, e as nat)
                    % pp);
            }
        }
    }
    proof {
        lemma_pow0(base as int);
        lemma_small_mod(acc as nat, p as nat);
    }
    acc
}

} // verus!
