//! Dense polynomials over a prime field: ring arithmetic, Euclidean
//! division, evaluation, Lagrange interpolation, zerofiers, scaling, and a
//! colinearity test.  A polynomial is a coefficient vector, index `i`
//! holding the coefficient of `x^i`; trailing zero coefficients are
//! permitted, and the degree of the zero polynomial is `-1`.

use vstd::prelude::*;
#[allow(unused_imports)]
use vstd::arithmetic::div_mod::*;
#[allow(unused_imports)]
use vstd::arithmetic::mul::*;
#[allow(unused_imports)]
use vstd::arithmetic::power::*;
use crate::fields::{Field, FieldElement};
use crate::modular::{f_add, f_neg, f_sub, lemma_head_congruence, lemma_scaled_congruence};
#[allow(unused_imports)]
use crate::number_theory::is_prime;

verus! {

/// The coefficient of `x^k` in a coefficient sequence: zero outside it.
pub open spec fn pcoef(s: Seq<int>, k: int) -> int {
    if 0 <= k < s.len() {
        s[k]
    } else {
        0
    }
}

/// The degree of a coefficient sequence: the highest index holding a
/// nonzero value, and `-1` when there is none.
pub open spec fn poly_deg(s: Seq<int>) -> int
    decreases s.len(),
{
    if s.len() == 0 {
        -1
    } else if s.last() != 0 {
        s.len() - 1
    } else {
        poly_deg(s.drop_last())
    }
}

/// The sum of the first `n` terms `s[i] * x^i`, reduced modulo `p` at each
/// step; with `n` the length this is the value of the polynomial at `x`.
pub open spec fn eval_pre(s: Seq<int>, x: int, p: int, n: nat) -> int
    decreases n,
{
    if n == 0 {
        0
    } else {
        (eval_pre(s, x, p, (n - 1) as nat) + pcoef(s, n - 1) * pow(x, (n - 1) as nat)) % p
    }
}

/// The value of the polynomial `s` at the point `x`, modulo `p`.
pub open spec fn poly_eval(s: Seq<int>, x: int, p: int) -> int {
    eval_pre(s, x, p, s.len())
}

/// The first `n` terms of the convolution sum at output index `k`.
pub open spec fn conv_partial(a: Seq<int>, b: Seq<int>, k: int, n: nat) -> int
    decreases n,
{
    if n == 0 {
        0
    } else {
        conv_partial(a, b, k, (n - 1) as nat) + pcoef(a, n - 1) * pcoef(b, k - (n - 1))
    }
}

/// The full convolution of `a` and `b` at output index `k`:
/// the coefficient of `x^k` in the product, before reduction.
pub open spec fn conv_at(a: Seq<int>, b: Seq<int>, k: int) -> int {
    conv_partial(a, b, k, a.len())
}

// ------------------------------------------------------------------
// Degree lemmas
// ------------------------------------------------------------------
/// The degree stays in range, marks a nonzero entry, and everything above
/// it is zero.
pub proof fn lemma_deg_bounds(s: Seq<int>)
    ensures
        -1 <= poly_deg(s) < s.len(),
        poly_deg(s) >= 0 ==> s[poly_deg(s)] != 0,
        forall|i: int| poly_deg(s) < i < s.len() ==> s[i] == 0,
    decreases s.len(),
{
    if s.len() > 0 && s.last() == 0 {
        lemma_deg_bounds(s.drop_last());
        assert forall|i: int| poly_deg(s) < i < s.len() implies s[i] == 0 by {
            if i < s.len() - 1 {
                assert(s.drop_last()[i] == 0);
            }
        }
    }
}

/// An index holding a nonzero entry with only zeros above it is the degree.
pub proof fn lemma_deg_at(s: Seq<int>, d: int)
    requires
        0 <= d < s.len(),
        s[d] != 0,
        forall|i: int| d < i < s.len() ==> s[i] == 0,
    ensures
        poly_deg(s) == d,
    decreases s.len(),
{
    if d == s.len() - 1 {
    } else {
        assert(s.last() == 0);
        lemma_deg_at(s.drop_last(), d);
    }
}

/// A sequence of zeros alone has degree `-1`.
pub proof fn lemma_deg_none(s: Seq<int>)
    requires
        forall|i: int| 0 <= i < s.len() ==> s[i] == 0,
    ensures
        poly_deg(s) == -1,
    decreases s.len(),
{
    if s.len() > 0 {
        lemma_deg_none(s.drop_last());
    }
}

/// A dense polynomial over one field, as an ordered coefficient vector.
#[derive(Clone, Debug)]
pub struct Polynomial {
    pub coefficients: Vec<FieldElement>,
}

impl Polynomial {
    /// The coefficient values, as plain integers.
    pub open spec fn vals(self) -> Seq<int> {
        self.coefficients@.map_values(|c: FieldElement| c.value as int)
    }

    /// All coefficients are canonical residues of the field `f`.
    pub open spec fn over(self, f: Field) -> bool {
        &&& f.wf()
        &&& forall|i: int|
            0 <= i < self.coefficients@.len() ==> (#[trigger] self.coefficients@[i]).wf()
                && self.coefficients@[i].field == f
    }

    /// All coefficients are canonical and share one field.
    pub open spec fn wf(self) -> bool {
        forall|i: int|
            0 <= i < self.coefficients@.len() ==> (#[trigger] self.coefficients@[i]).wf()
                && self.coefficients@[i].field == self.coefficients@[0].field
    }

    /// Two polynomials either agree on their field or one is empty.
    pub open spec fn compat(self, other: Polynomial) -> bool {
        &&& self.wf()
        &&& other.wf()
        &&& self.coefficients@.len() > 0 && other.coefficients@.len() > 0
            ==> self.coefficients@[0].field == other.coefficients@[0].field
        &&& self.coefficients@.len() > 0 ==> self.coefficients@[0].field.wf()
        &&& other.coefficients@.len() > 0 ==> other.coefficients@[0].field.wf()
    }

    /// The modulus this polynomial's coefficients live under; immaterial
    /// (and set to 2) for an empty coefficient vector.
    pub open spec fn modulus(self) -> int {
        if self.coefficients@.len() > 0 {
            self.coefficients@[0].field.p as int
        } else {
            2
        }
    }

    /// The joint modulus of two compatible polynomials.
    pub open spec fn joint_modulus(self, other: Polynomial) -> int {
        if self.coefficients@.len() > 0 {
            self.modulus()
        } else {
            other.modulus()
        }
    }

    /// Wraps a coefficient vector, unchanged and unnormalized.
    pub fn new(coef: Vec<FieldElement>) -> (r: Polynomial)
        ensures
            r.coefficients == coef,
    {
        Polynomial { coefficients: coef }
    }

    /// The degree: highest index with a nonzero coefficient, `-1` for the
    /// zero polynomial, whether empty or all zeros.
    pub fn degree(&self) -> (d: i32)
        requires
            self.coefficients@.len() <= i32::MAX,
        ensures
            d as int == poly_deg(self.vals()),
    {
        let n = self.coefficients.len();
        let mut i: usize = n;
        while i > 0
            invariant
                i <= n,
                n == self.coefficients@.len() <= i32::MAX,
                forall|j: int| i <= j < n ==> self.vals()[j] == 0,
            decreases i,
        {
            if self.coefficients[i - 1].value != 0 {
                proof {
                    lemma_deg_at(self.vals(), i - 1);
                }
                return (i - 1) as i32;
            }
            i = i - 1;
        }
        proof {
            lemma_deg_none(self.vals());
        }
        -1
    }

    /// Whether this is the zero polynomial: degree `-1`.
    pub fn is_zero(&self) -> (r: bool)
        requires
            self.coefficients@.len() <= i32::MAX,
        ensures
            r == (poly_deg(self.vals()) == -1),
    {
        self.degree() == -1
    }

    /// The coefficient at the degree; the polynomial must not be zero.
    pub fn leading_coefficient(&self) -> (r: FieldElement)
        requires
            self.coefficients@.len() <= i32::MAX,
            poly_deg(self.vals()) >= 0,
        ensures
            r == self.coefficients@[poly_deg(self.vals())],
            r.value as int == self.vals()[poly_deg(self.vals())],
            r.value != 0,
    {
        proof {
            lemma_deg_bounds(self.vals());
        }
        let d = self.degree();
        self.coefficients[d as usize]
    }

    /// Coefficientwise negation.
    pub fn neg(&self) -> (r: Polynomial)
        requires
            self.wf(),
        ensures
            r.coefficients@.len() == self.coefficients@.len(),
            forall|f: Field| self.over(f) ==> r.over(f),
            forall|k: int|
                0 <= k < r.vals().len() ==> r.vals()[k] == f_neg(
                    self.vals()[k],
                    self.modulus(),
                ),
    {
        let n = self.coefficients.len();
        let mut out: Vec<FieldElement> = Vec::new();
        let mut i: usize = 0;
        while i < n
            invariant
                i <= n,
                n == self.coefficients@.len(),
                self.wf(),
                out@.len() == i,
                forall|j: int|
                    0 <= j < i ==> (#[trigger] out@[j]).field == self.coefficients@[0].field
                        && out@[j].wf(),
                forall|j: int|
                    0 <= j < i ==> out@[j].value as int == f_neg(
                        self.vals()[j],
                        self.modulus(),
                    ),
            decreases n - i,
        {
            assert(self.coefficients@[i as int].wf());
            let c = self.coefficients[i].neg();
            out.push(c);
            i = i + 1;
        }
        Polynomial { coefficients: out }
    }

    /// Value equality of two elements' views under `eq` semantics: equal
    /// degrees, and for nonzero polynomials the raw coefficient sequences
    /// match exactly.
    pub open spec fn eq_spec(self, other: Polynomial) -> bool {
        &&& poly_deg(self.vals()) == poly_deg(other.vals())
        &&& poly_deg(self.vals()) != -1 ==> self.coefficients@ == other.coefficients@
    }

    /// Structural equality up to the zero polynomial: two zero polynomials
    /// of any length are equal; otherwise the raw sequences must match.
    pub fn eq(&self, other: &Polynomial) -> (r: bool)
        requires
            self.coefficients@.len() <= i32::MAX,
            other.coefficients@.len() <= i32::MAX,
        ensures
            r == self.eq_spec(*other),
    {
        let d1 = self.degree();
        let d2 = other.degree();
        if d1 != d2 {
            return false;
        }
        if d1 == -1 {
            return true;
        }
        if self.coefficients.len() != other.coefficients.len() {
            proof {
                assert(self.coefficients@.len() != other.coefficients@.len());
                assert(self.coefficients@ != other.coefficients@);
            }
            return false;
        }
        let n = self.coefficients.len();
        let mut i: usize = 0;
        while i < n
            invariant
                i <= n,
                n == self.coefficients@.len(),
                n == other.coefficients@.len(),
                poly_deg(self.vals()) == poly_deg(other.vals()),
                poly_deg(self.vals()) != -1,
                forall|j: int| 0 <= j < i ==> self.coefficients@[j] == other.coefficients@[j],
            decreases n - i,
        {
            let a = self.coefficients[i];
            let b = other.coefficients[i];
            if a.value != b.value || a.field.p != b.field.p {
                proof {
                    assert(self.coefficients@[i as int] != other.coefficients@[i as int]);
                }
                return false;
            }
            i = i + 1;
        }
        proof {
            assert(self.coefficients@ =~= other.coefficients@);
        }
        true
    }

    /// The negation of `eq`.
    pub fn neq(&self, other: &Polynomial) -> (r: bool)
        requires
            self.coefficients@.len() <= i32::MAX,
            other.coefficients@.len() <= i32::MAX,
        ensures
            r == !self.eq_spec(*other),
    {
        !self.eq(other)
    }

    /// An elementwise copy of this polynomial.
    pub fn duplicate(&self) -> (r: Polynomial)
        ensures
            r.coefficients@ == self.coefficients@,
    {
        let n = self.coefficients.len();
        let mut out: Vec<FieldElement> = Vec::new();
        let mut i: usize = 0;
        while i < n
            invariant
                i <= n,
                n == self.coefficients@.len(),
                out@ =~= self.coefficients@.subrange(0, i as int),
            decreases n - i,
        {
            out.push(self.coefficients[i]);
            proof {
                assert(out@ =~= self.coefficients@.subrange(0, i + 1));
            }
            i = i + 1;
        }
        proof {
            assert(out@ =~= self.coefficients@);
        }
        Polynomial { coefficients: out }
    }

    /// Coefficientwise sum; a zero polynomial leaves the other unchanged.
    pub fn add(&self, other: &Polynomial) -> (r: Polynomial)
        requires
            self.compat(*other),
            self.coefficients@.len() <= i32::MAX,
            other.coefficients@.len() <= i32::MAX,
        ensures
            forall|f: Field| self.over(f) && other.over(f) ==> r.over(f),
            r.coefficients@.len() <= self.coefficients@.len() || r.coefficients@.len()
                <= other.coefficients@.len(),
            poly_deg(self.vals()) == -1 ==> r.coefficients@ == other.coefficients@,
            poly_deg(self.vals()) != -1 && poly_deg(other.vals()) == -1 ==> r.coefficients@
                == self.coefficients@,
            forall|k: int|
                #![trigger pcoef(r.vals(), k)]
                pcoef(r.vals(), k) == f_add(
                    pcoef(self.vals(), k),
                    pcoef(other.vals(), k),
                    self.joint_modulus(*other),
                ),
    {
        let d1 = self.degree();
        let d2 = other.degree();
        proof {
            lemma_deg_bounds(self.vals());
            lemma_deg_bounds(other.vals());
        }
        if d1 == -1 {
            let r = other.duplicate();
            proof {
                lemma_zero_add_keeps(*self, *other, r);
            }
            return r;
        }
        if d2 == -1 {
            let r = self.duplicate();
            proof {
                lemma_add_zero_keeps(*self, *other, r);
            }
            return r;
        }
        let m: usize = if d1 >= d2 {
            (d1 + 1) as usize
        } else {
            (d2 + 1) as usize
        };
        let field = self.coefficients[0].field;
        let zero = field.zero();
        let ghost pm = self.joint_modulus(*other);
        let mut out: Vec<FieldElement> = Vec::new();
        let mut k: usize = 0;
        while k < m
            invariant
                k <= m,
                m <= self.coefficients@.len() || m <= other.coefficients@.len(),
                self.compat(*other),
                self.coefficients@.len() > 0,
                other.coefficients@.len() > 0,
                field == self.coefficients@[0].field,
                field.wf(),
                zero.field == field,
                zero.value == 0,
                pm == self.joint_modulus(*other),
                out@.len() == k,
                forall|j: int|
                    0 <= j < k ==> (#[trigger] out@[j]).wf() && out@[j].field == field,
                forall|j: int|
                    0 <= j < k ==> out@[j].value as int == f_add(
                        pcoef(self.vals(), j),
                        pcoef(other.vals(), j),
                        pm,
                    ),
            decreases m - k,
        {
            let ca = if k < self.coefficients.len() {
                self.coefficients[k]
            } else {
                zero
            };
            let cb = if k < other.coefficients.len() {
                other.coefficients[k]
            } else {
                zero
            };
            proof {
                assert(ca.value as int == pcoef(self.vals(), k as int));
                assert(cb.value as int == pcoef(other.vals(), k as int));
            }
            let c = field.add(&ca, &cb);
            out.push(c);
            k = k + 1;
        }
        let r = Polynomial { coefficients: out };
        proof {
            lemma_deg_bounds(self.vals());
            lemma_deg_bounds(other.vals());
            lemma_small_mod(0, pm as nat);
            assert forall|kk: int| #![trigger pcoef(r.vals(), kk)]
                pcoef(r.vals(), kk) == f_add(
                    pcoef(self.vals(), kk),
                    pcoef(other.vals(), kk),
                    pm,
                ) by {
                if !(0 <= kk < m) {
                    assert(pcoef(self.vals(), kk) == 0);
                    assert(pcoef(other.vals(), kk) == 0);
                }
            }
        }
        r
    }

    /// Coefficientwise difference: the sum with the negation.
    pub fn sub(&self, other: &Polynomial) -> (r: Polynomial)
        requires
            self.compat(*other),
            self.coefficients@.len() <= i32::MAX,
            other.coefficients@.len() <= i32::MAX,
        ensures
            forall|f: Field| self.over(f) && other.over(f) ==> r.over(f),
            r.coefficients@.len() <= self.coefficients@.len() || r.coefficients@.len()
                <= other.coefficients@.len(),
            forall|k: int|
                #![trigger pcoef(r.vals(), k)]
                pcoef(r.vals(), k) == f_sub(
                    pcoef(self.vals(), k),
                    pcoef(other.vals(), k),
                    self.joint_modulus(*other),
                ),
    {
        let n = other.neg();
        let ghost pm = self.joint_modulus(*other);
        proof {
            lemma_mod_self_0(pm);
            if other.coefficients@.len() > 0 {
                let f0 = other.coefficients@[0].field;
                assert(other.over(f0));
                assert(n.over(f0));
                assert(n.wf());
                assert(n.coefficients@.len() == other.coefficients@.len());
                assert(n.coefficients@[0].field == f0);
            }
            assert(self.compat(n));
            assert(self.joint_modulus(n) == pm);
        }
        let r = self.add(&n);
        proof {
            assert forall|k: int| #![trigger pcoef(r.vals(), k)]
                pcoef(r.vals(), k) == f_sub(
                    pcoef(self.vals(), k),
                    pcoef(other.vals(), k),
                    pm,
                ) by {
                let a = pcoef(self.vals(), k);
                let b = pcoef(other.vals(), k);
                assert(pcoef(n.vals(), k) == f_neg(b, pm));
                lemma_add_mod_noop_right(a, pm - b, pm);
                assert(f_add(a, (pm - b) % pm, pm) == (a + (pm - b)) % pm);
            }
        }
        r
    }
}

/// The convolution sum vanishes outside the index range the degrees span.
pub proof fn lemma_conv_outside(a: Seq<int>, b: Seq<int>, k: int, n: nat)
    requires
        k < 0 || k > poly_deg(a) + poly_deg(b),
    ensures
        conv_partial(a, b, k, n) == 0,
    decreases n,
{
    if n > 0 {
        lemma_conv_outside(a, b, k, (n - 1) as nat);
        lemma_deg_bounds(a);
        lemma_deg_bounds(b);
        let i = n - 1;
        if k < 0 {
            assert(pcoef(b, k - i) == 0);
        } else if i > poly_deg(a) {
            assert(pcoef(a, i) == 0);
        } else {
            assert(k - i > poly_deg(b));
            assert(pcoef(b, k - i) == 0);
        }
    }
}

/// The convolution with a zero polynomial on the left vanishes.
pub proof fn lemma_conv_left_zero(a: Seq<int>, b: Seq<int>, k: int, n: nat)
    requires
        poly_deg(a) == -1,
    ensures
        conv_partial(a, b, k, n) == 0,
    decreases n,
{
    if n > 0 {
        lemma_conv_left_zero(a, b, k, (n - 1) as nat);
        lemma_deg_bounds(a);
        assert(pcoef(a, n - 1) == 0);
    }
}

/// The convolution with a zero polynomial on the right vanishes.
pub proof fn lemma_conv_right_zero(a: Seq<int>, b: Seq<int>, k: int, n: nat)
    requires
        poly_deg(b) == -1,
    ensures
        conv_partial(a, b, k, n) == 0,
    decreases n,
{
    if n > 0 {
        lemma_conv_right_zero(a, b, k, (n - 1) as nat);
        lemma_deg_bounds(b);
        assert(pcoef(b, k - (n - 1)) == 0);
    }
}

/// The running value of one output slot midway through the product loops:
/// all rows below `i` are summed, and row `i` has contributed its first `j`
/// columns.
pub open spec fn mul_mid(a: Seq<int>, b: Seq<int>, k: int, i: nat, j: nat) -> int {
    conv_partial(a, b, k, i) + if i <= k < i + j {
        pcoef(a, i as int) * pcoef(b, k - i)
    } else {
        0
    }
}

impl Polynomial {
    /// The convolution product.  A zero operand gives the empty (zero)
    /// polynomial; otherwise the result holds `deg(a) + deg(b) + 2` slots,
    /// so one trailing zero slot of slack.
    pub fn mul(&self, other: &Polynomial) -> (r: Polynomial)
        requires
            self.compat(*other),
            self.coefficients@.len() <= i32::MAX,
            other.coefficients@.len() <= i32::MAX,
        ensures
            forall|f: Field| self.over(f) && other.over(f) ==> r.over(f),
            r.coefficients@.len() <= self.coefficients@.len() + other.coefficients@.len(),
            poly_deg(self.vals()) == -1 || poly_deg(other.vals()) == -1 ==> r.coefficients@.len()
                == 0,
            poly_deg(self.vals()) >= 0 && poly_deg(other.vals()) >= 0 ==> r.coefficients@.len()
                == poly_deg(self.vals()) + poly_deg(other.vals()) + 2,
            forall|k: int|
                #![trigger pcoef(r.vals(), k)]
                pcoef(r.vals(), k) == conv_at(self.vals(), other.vals(), k) % self.joint_modulus(
                    *other,
                ),
    {
        let d1 = self.degree();
        let d2 = other.degree();
        let ghost aa = self.vals();
        let ghost bb = other.vals();
        let ghost pm = self.joint_modulus(*other);
        proof {
            lemma_deg_bounds(aa);
            lemma_deg_bounds(bb);
        }
        if d1 == -1 || d2 == -1 {
            let r = Polynomial { coefficients: Vec::new() };
            proof {
                lemma_small_mod(0, pm as nat);
                assert forall|k: int| #![trigger pcoef(r.vals(), k)]
                    pcoef(r.vals(), k) == conv_at(aa, bb, k) % pm by {
                    if d1 == -1 {
                        lemma_conv_left_zero(aa, bb, k, aa.len());
                    } else {
                        lemma_conv_right_zero(aa, bb, k, aa.len());
                    }
                }
            }
            return r;
        }
        let field = self.coefficients[0].field;
        let n: usize = (d1 + 1) as usize + (d2 + 1) as usize;
        let mut buf: Vec<FieldElement> = Vec::new();
        let zero = field.zero();
        while buf.len() < n
            invariant
                n == poly_deg(aa) + poly_deg(bb) + 2,
                field.wf(),
                zero.field == field,
                zero.value == 0,
                buf@.len() <= n,
                forall|j: int| 0 <= j < buf@.len() ==> buf@[j] == zero,
            decreases n - buf.len(),
        {
            buf.push(zero);
        }
        let la = self.coefficients.len();
        let lb = other.coefficients.len();
        let mut i: usize = 0;
        proof {
            lemma_small_mod(0, pm as nat);
        }
        while i < la
            invariant
                i <= la,
                la == aa.len(),
                lb == bb.len(),
                la <= i32::MAX,
                lb <= i32::MAX,
                d1 as int == poly_deg(aa),
                d2 as int == poly_deg(bb),
                aa == self.vals(),
                bb == other.vals(),
                self.compat(*other),
                self.coefficients@.len() > 0,
                other.coefficients@.len() > 0,
                field == self.coefficients@[0].field,
                field.wf(),
                pm == field.p as int,
                pm == self.joint_modulus(*other),
                0 <= poly_deg(aa) < la,
                0 <= poly_deg(bb) < lb,
                n == poly_deg(aa) + poly_deg(bb) + 2,
                buf@.len() == n,
                forall|j: int| 0 <= j < n ==> (#[trigger] buf@[j]).wf() && buf@[j].field == field,
                forall|k: int|
                    0 <= k < n ==> (#[trigger] buf@[k]).value as int == conv_partial(
                        aa,
                        bb,
                        k,
                        i as nat,
                    ) % pm,
            decreases la - i,
        {
            let ci = self.coefficients[i];
            proof {
                assert(ci.value as int == pcoef(aa, i as int));
            }
            if ci.value != 0 {
                proof {
                    lemma_deg_bounds(aa);
                    assert(i <= poly_deg(aa));
                }
                let bound = (d2 + 1) as usize;
                let mut j: usize = 0;
                while j < bound
                    invariant
                        j <= bound,
                        bound == poly_deg(bb) + 1,
                        i < la,
                        la == aa.len(),
                        lb == bb.len(),
                        aa == self.vals(),
                        bb == other.vals(),
                        self.compat(*other),
                        self.coefficients@.len() > 0,
                        other.coefficients@.len() > 0,
                        field == self.coefficients@[0].field,
                        field.wf(),
                        pm == field.p as int,
                        ci == self.coefficients@[i as int],
                        ci.wf(),
                        ci.value as int == pcoef(aa, i as int),
                        i <= poly_deg(aa),
                        0 <= poly_deg(bb) < lb,
                        n == poly_deg(aa) + poly_deg(bb) + 2,
                        buf@.len() == n,
                        forall|jj: int|
                            0 <= jj < n ==> (#[trigger] buf@[jj]).wf() && buf@[jj].field
                                == field,
                        forall|k: int|
                            0 <= k < n ==> (#[trigger] buf@[k]).value as int == mul_mid(
                                aa,
                                bb,
                                k,
                                i as nat,
                                j as nat,
                            ) % pm,
                    decreases bound - j,
                {
                    let cj = other.coefficients[j];
                    proof {
                        assert(cj.value as int == pcoef(bb, j as int));
                        assert(cj.wf());
                    }
                    let idx = i + j;
                    let ghost old_buf = buf@;
                    let prod = field.multiply(&ci, &cj);
                    let entry = field.add(&buf[idx], &prod);
                    buf.set(idx, entry);
                    proof {
                        let kk = idx as int;
                        // the updated slot now carries row i up to column j+1
                        assert(old_buf[kk].value as int == conv_partial(aa, bb, kk, i as nat)
                            % pm);
                        lemma_add_mod_noop_right(
                            conv_partial(aa, bb, kk, i as nat) % pm,
                            pcoef(aa, i as int) * pcoef(bb, j as int),
                            pm,
                        );
                        lemma_add_mod_noop(
                            conv_partial(aa, bb, kk, i as nat),
                            pcoef(aa, i as int) * pcoef(bb, j as int),
                            pm,
                        );
                        lemma_mod_twice(conv_partial(aa, bb, kk, i as nat), pm);
                        assert(entry.value as int == (conv_partial(aa, bb, kk, i as nat) + pcoef(
                            aa,
                            i as int,
                        ) * pcoef(bb, j as int)) % pm);
                        assert(entry.value as int == mul_mid(aa, bb, kk, i as nat, (j + 1) as nat)
                            % pm);
                        assert forall|k: int|
                            0 <= k < n implies (#[trigger] buf@[k]).value as int == mul_mid(
                            aa,
                            bb,
                            k,
                            i as nat,
                            (j + 1) as nat,
                        ) % pm by {
                            if k != kk {
                                assert(buf@[k] == old_buf[k]);
                                assert(mul_mid(aa, bb, k, i as nat, (j + 1) as nat) == mul_mid(
                                    aa,
                                    bb,
                                    k,
                                    i as nat,
                                    j as nat,
                                ));
                            }
                        }
                    }
                    j = j + 1;
                }
                proof {
                    lemma_deg_bounds(bb);
                    assert forall|k: int|
                        0 <= k < n implies (#[trigger] buf@[k]).value as int == conv_partial(
                        aa,
                        bb,
                        k,
                        (i + 1) as nat,
                    ) % pm by {
                        let v = buf@[k].value as int;
                        assert(v == mul_mid(aa, bb, k, i as nat, bound as nat) % pm);
                        let c1 = conv_partial(aa, bb, k, i as nat);
                        let t = pcoef(aa, i as int) * pcoef(bb, k - i);
                        assert(conv_partial(aa, bb, k, (i + 1) as nat) == c1 + t);
                        if i <= k < i + bound {
                            assert(mul_mid(aa, bb, k, i as nat, bound as nat) == c1 + t);
                        } else {
                            assert(pcoef(bb, k - i) == 0);
                            lemma_mul_by_zero_is_zero(pcoef(aa, i as int));
                            assert(t == 0);
                            assert(mul_mid(aa, bb, k, i as nat, bound as nat) == c1);
                        }
                        assert(v == (c1 + t) % pm);
                    }
                }
            } else {
                proof {
                    assert forall|k: int|
                        0 <= k < n implies (#[trigger] buf@[k]).value as int == conv_partial(
                        aa,
                        bb,
                        k,
                        (i + 1) as nat,
                    ) % pm by {
                        assert(conv_partial(aa, bb, k, (i + 1) as nat) == conv_partial(
                            aa,
                            bb,
                            k,
                            i as nat,
                        ) + pcoef(aa, i as int) * pcoef(bb, k - i));
                        assert(pcoef(aa, i as int) * pcoef(bb, k - i) == 0);
                    }
                }
            }
            i = i + 1;
        }
        let r = Polynomial { coefficients: buf };
        proof {
            lemma_small_mod(0, pm as nat);
            assert forall|k: int| #![trigger pcoef(r.vals(), k)]
                pcoef(r.vals(), k) == conv_at(aa, bb, k) % pm by {
                if 0 <= k < n {
                } else {
                    lemma_conv_outside(aa, bb, k, aa.len());
                }
            }
        }
        r
    }
}

/// A partial evaluation stays a canonical residue.
pub proof fn lemma_eval_pre_bound(s: Seq<int>, x: int, p: int, n: nat)
    requires
        p >= 2,
    ensures
        0 <= eval_pre(s, x, p, n) < p,
    decreases n,
{
    if n == 0 {
    } else {
        lemma_eval_pre_bound(s, x, p, (n - 1) as nat);
        lemma_mod_bound(eval_pre(s, x, p, (n - 1) as nat) + pcoef(s, n - 1) * pow(x, (n - 1) as nat), p);
    }
}

/// Evaluation only reads the coefficients modulo `p`: two sequences that
/// agree in that sense below `n` evaluate alike.
pub proof fn lemma_eval_pre_congruent(s1: Seq<int>, s2: Seq<int>, x: int, p: int, n: nat)
    requires
        p >= 2,
        forall|k: int| 0 <= k < n ==> pcoef(s1, k) % p == pcoef(s2, k) % p,
    ensures
        eval_pre(s1, x, p, n) == eval_pre(s2, x, p, n),
    decreases n,
{
    if n > 0 {
        lemma_eval_pre_congruent(s1, s2, x, p, (n - 1) as nat);
        let e = eval_pre(s1, x, p, (n - 1) as nat);
        let c1 = pcoef(s1, n - 1);
        let c2 = pcoef(s2, n - 1);
        let w = pow(x, (n - 1) as nat);
        lemma_mul_mod_noop_left(c1, w, p);
        lemma_mul_mod_noop_left(c2, w, p);
        assert((c1 % p) * w == (c2 % p) * w);
        lemma_add_mod_noop_right(e, c1 * w, p);
        lemma_add_mod_noop_right(e, c2 * w, p);
        assert((e + c1 * w) % p == (e + (c1 * w) % p) % p);
        assert((e + c2 * w) % p == (e + (c2 * w) % p) % p);
    }
}

/// Virtual coefficients past the end contribute nothing to the evaluation.
pub proof fn lemma_eval_pre_beyond(s: Seq<int>, x: int, p: int, n: nat)
    requires
        p >= 2,
        n >= s.len(),
    ensures
        eval_pre(s, x, p, n) == poly_eval(s, x, p),
    decreases n,
{
    if n > s.len() {
        lemma_eval_pre_beyond(s, x, p, (n - 1) as nat);
        lemma_eval_pre_bound(s, x, p, (n - 1) as nat);
        assert(pcoef(s, n - 1) == 0);
        lemma_small_mod(eval_pre(s, x, p, (n - 1) as nat) as nat, p as nat);
    }
}

impl Polynomial {
    /// Evaluates this polynomial at one point by accumulating a running
    /// power of the point.
    pub fn evaluate(&self, point: &FieldElement) -> (r: FieldElement)
        requires
            self.wf(),
            point.wf(),
            self.coefficients@.len() > 0 ==> self.coefficients@[0].field == point.field,
        ensures
            r.field == point.field,
            r.wf(),
            r.value as int == poly_eval(self.vals(), point.value as int, point.field.p as int),
    {
        let field = point.field;
        let p = field.p;
        let x = point.value;
        let mut xi = field.one();
        let mut value = field.zero();
        proof {
            lemma_pow0(x as int);
            lemma_small_mod(1, p as nat);
        }
        let n = self.coefficients.len();
        let mut i: usize = 0;
        while i < n
            invariant
                i <= n,
                n == self.coefficients@.len(),
                self.wf(),
                n > 0 ==> self.coefficients@[0].field == field,
                field == point.field,
                field.wf(),
                point.wf(),
                p == field.p,
                x == point.value,
                xi.field == field,
                xi.wf(),
                value.field == field,
                value.wf(),
                xi.value as int == pow(x as int, i as nat) % (p as int),
                value.value as int == eval_pre(self.vals(), x as int, p as int, i as nat),
            decreases n - i,
        {
            let c = self.coefficients[i];
            proof {
                assert(c.wf() && c.field == field);
                assert(c.value as int == pcoef(self.vals(), i as int));
            }
            let term = field.multiply(&c, &xi);
            let ghost value0 = value.value as int;
            value = field.add(&value, &term);
            proof {
                let pp = p as int;
                let w = pow(x as int, i as nat);
                let cv = c.value as int;
                lemma_mul_mod_noop_right(cv, w, pp);
                assert(term.value as int == (cv * w) % pp);
                lemma_add_mod_noop_right(value0, cv * w, pp);
                assert(value.value as int == (value0 + cv * w) % pp);
                assert(value.value as int == eval_pre(
                    self.vals(),
                    x as int,
                    pp,
                    (i + 1) as nat,
                ));
            }
            xi = field.multiply(&xi, point);
            proof {
                let pp = p as int;
                lemma_mul_mod_noop_left(pow(x as int, i as nat), x as int, pp);
                lemma_pow_adds(x as int, i as nat, 1);
                lemma_pow1(x as int);
                assert(xi.value as int == pow(x as int, (i + 1) as nat) % pp);
            }
            i = i + 1;
        }
        value
    }

    /// Evaluates this polynomial at each point of a domain, in order.
    pub fn evaluate_domain(&self, domain: &Vec<FieldElement>) -> (r: Vec<FieldElement>)
        requires
            self.wf(),
            forall|i: int|
                0 <= i < domain@.len() ==> (#[trigger] domain@[i]).wf() && (
                self.coefficients@.len() > 0 ==> domain@[i].field == self.coefficients@[0].field),
        ensures
            r@.len() == domain@.len(),
            forall|i: int|
                0 <= i < domain@.len() ==> {
                    &&& (#[trigger] r@[i]).field == domain@[i].field
                    &&& r@[i].wf()
                    &&& r@[i].value as int == poly_eval(
                        self.vals(),
                        domain@[i].value as int,
                        domain@[i].field.p as int,
                    )
                },
    {
        let n = domain.len();
        let mut out: Vec<FieldElement> = Vec::new();
        let mut i: usize = 0;
        while i < n
            invariant
                i <= n,
                n == domain@.len(),
                self.wf(),
                forall|j: int|
                    0 <= j < domain@.len() ==> (#[trigger] domain@[j]).wf() && (
                    self.coefficients@.len() > 0 ==> domain@[j].field
                        == self.coefficients@[0].field),
                out@.len() == i,
                forall|j: int|
                    0 <= j < i ==> {
                        &&& (#[trigger] out@[j]).field == domain@[j].field
                        &&& out@[j].wf()
                        &&& out@[j].value as int == poly_eval(
                            self.vals(),
                            domain@[j].value as int,
                            domain@[j].field.p as int,
                        )
                    },
            decreases n - i,
        {
            let v = self.evaluate(&domain[i]);
            out.push(v);
            i = i + 1;
        }
        out
    }
}

/// The failures a polynomial operation can report.
#[derive(Clone, Copy, PartialEq, Eq, Structural, Debug)]
pub enum PolynomialError {
    /// Division by the zero polynomial.
    ZeroDivisor,
    /// An exact division left a nonzero remainder.
    NonZeroRemainder,
    /// Interpolation arguments of different lengths.
    LengthMismatch,
    /// Interpolation over an empty domain.
    EmptyDomain,
    /// Interpolation over a domain with a repeated point.
    DuplicatePoint,
}

/// The integer values of a coefficient sequence.
pub open spec fn vals_of(s: Seq<FieldElement>) -> Seq<int> {
    s.map_values(|c: FieldElement| c.value as int)
}

/// A vector of `n` zero elements of one field.
fn zero_vec(field: Field, n: usize) -> (r: Vec<FieldElement>)
    requires
        field.wf(),
    ensures
        r@.len() == n,
        forall|i: int|
            0 <= i < n ==> (#[trigger] r@[i]).wf() && r@[i].field == field && r@[i].value == 0,
{
    let zero = field.zero();
    let mut out: Vec<FieldElement> = Vec::new();
    while out.len() < n
        invariant
            field.wf(),
            zero.field == field,
            zero.value == 0,
            out@.len() <= n,
            forall|i: int| 0 <= i < out@.len() ==> out@[i] == zero,
        decreases n - out.len(),
    {
        out.push(zero);
    }
    out
}

/// Convolving with a sequence holding at most one nonzero entry picks one
/// scaled coefficient of the other factor.
pub proof fn lemma_conv_single(a: Seq<int>, b: Seq<int>, k: int, idx: int, n: nat)
    requires
        0 <= idx,
        forall|i: int| 0 <= i < a.len() && i != idx ==> a[i] == 0,
    ensures
        conv_partial(a, b, k, n) == if idx < n {
            pcoef(a, idx) * pcoef(b, k - idx)
        } else {
            0
        },
    decreases n,
{
    if n > 0 {
        lemma_conv_single(a, b, k, idx, (n - 1) as nat);
        if n - 1 != idx {
            assert(pcoef(a, n - 1) == 0);
            lemma_mul_by_zero_is_zero(pcoef(b, k - (n - 1)));
        }
    }
}

/// Changing one entry of the left factor shifts the convolution by the
/// scaled difference.
pub proof fn lemma_conv_update(q1: Seq<int>, q2: Seq<int>, b: Seq<int>, k: int, idx: int, n: nat)
    requires
        q1.len() == q2.len(),
        0 <= idx < q1.len(),
        forall|i: int| 0 <= i < q1.len() && i != idx ==> q1[i] == q2[i],
    ensures
        conv_partial(q2, b, k, n) == conv_partial(q1, b, k, n) + if idx < n {
            (pcoef(q2, idx) - pcoef(q1, idx)) * pcoef(b, k - idx)
        } else {
            0
        },
    decreases n,
{
    if n > 0 {
        lemma_conv_update(q1, q2, b, k, idx, (n - 1) as nat);
        if n - 1 == idx {
            lemma_mul_is_distributive_sub_other_way(
                pcoef(b, k - idx),
                pcoef(q2, idx),
                pcoef(q1, idx),
            );
        }
    }
}

/// One long-division step keeps the invariant `dividend = Q*D + R`:
/// adding `t` to the product side while subtracting its residue from the
/// remainder side changes nothing modulo `pm`.
proof fn lemma_div_step_identity(aq: int, t: int, rk: int, pm: int, ok: int)
    requires
        pm >= 2,
        (aq + rk) % pm == ok,
    ensures
        (aq + t + (pm + rk - (t % pm)) % pm) % pm == ok,
{
    lemma_fundamental_div_mod(t, pm);
    lemma_add_mod_noop_right(aq + t, pm + rk - (t % pm), pm);
    assert((aq + t + (pm + rk - (t % pm)) % pm) % pm == (aq + t + pm + rk - (t % pm)) % pm);
    let q = t / pm;
    assert(aq + t + pm + rk - (t % pm) == pm * (q + 1) + (aq + rk)) by (nonlinear_arith)
        requires
            t == pm * q + (t % pm),
    ;
    lemma_mod_multiples_vanish(q + 1, aq + rk, pm);
}

impl Polynomial {
    /// Euclidean long division: returns `(quotient, remainder)`.  Dividing
    /// by the zero polynomial is refused; a dividend of smaller degree is
    /// returned unchanged as the remainder.  Over a prime modulus the
    /// result satisfies `self == quotient * denominator + remainder` with
    /// `degree(remainder) < degree(denominator)`.
    pub fn divide(&self, denominator: &Polynomial) -> (res: Result<
        (Polynomial, Polynomial),
        PolynomialError,
    >)
        requires
            self.compat(*denominator),
            self.coefficients@.len() + denominator.coefficients@.len() <= i32::MAX,
        ensures
            res is Err <==> poly_deg(denominator.vals()) == -1,
            res is Err ==> (res matches Err(e) && e == PolynomialError::ZeroDivisor),
            res matches Ok(qr) ==> {
                &&& forall|f: Field|
                    self.over(f) && denominator.over(f) ==> qr.0.over(f) && qr.1.over(f)
                &&& qr.0.coefficients@.len() <= self.coefficients@.len()
                &&& qr.1.coefficients@.len() <= self.coefficients@.len()
                    + denominator.coefficients@.len()
                &&& poly_deg(self.vals()) < poly_deg(denominator.vals())
                    ==> qr.0.coefficients@.len() == 0 && qr.1.coefficients@
                    == self.coefficients@
                &&& is_prime(self.joint_modulus(*denominator)) ==> poly_deg(qr.1.vals())
                    < poly_deg(denominator.vals())
                &&& is_prime(self.joint_modulus(*denominator)) ==> forall|k: int|
                    #![trigger pcoef(qr.1.vals(), k)]
                    pcoef(self.vals(), k) == (conv_at(qr.0.vals(), denominator.vals(), k)
                        + pcoef(qr.1.vals(), k)) % self.joint_modulus(*denominator)
            },
    {
        let d2 = denominator.degree();
        if d2 == -1 {
            return Err(PolynomialError::ZeroDivisor);
        }
        let d1 = self.degree();
        let ghost pm = self.joint_modulus(*denominator);
        let ghost dv = denominator.vals();
        let ghost sv = self.vals();
        proof {
            lemma_deg_bounds(sv);
            lemma_deg_bounds(dv);
        }
        if d1 < d2 {
            let q = Polynomial { coefficients: Vec::new() };
            let rem = self.duplicate();
            proof {
                lemma_small_mod(0, pm as nat);
                if is_prime(pm) {
                    assert forall|k: int| #![trigger pcoef(rem.vals(), k)]
                        pcoef(sv, k) == (conv_at(q.vals(), dv, k) + pcoef(rem.vals(), k))
                            % pm by {
                        assert(conv_at(q.vals(), dv, k) == 0);
                        if 0 <= k < sv.len() {
                            assert(self.coefficients@[k].wf());
                            lemma_small_mod(self.coefficients@[k].value as nat, pm as nat);
                        }
                    }
                }
            }
            return Ok((q, rem));
        }
        let field = denominator.coefficients[0].field;
        let denom_lead = denominator.leading_coefficient();
        let la = self.coefficients.len();
        let lb = denominator.coefficients.len();
        let qlen = (d1 - d2 + 1) as usize;
        let mut quotient: Vec<FieldElement> = zero_vec(field, qlen);
        let mut remainder = self.duplicate();
        let mut rdeg = d1;
        let mut iter: usize = 0;
        proof {
            lemma_small_mod(0, pm as nat);
            if is_prime(pm) {
                assert forall|k: int| #![trigger pcoef(remainder.vals(), k)]
                    pcoef(sv, k) == (conv_at(vals_of(quotient@), dv, k) + pcoef(
                        remainder.vals(),
                        k,
                    )) % pm by {
                    lemma_deg_none(vals_of(quotient@));
                    lemma_conv_left_zero(vals_of(quotient@), dv, k, vals_of(quotient@).len());
                    if 0 <= k < sv.len() {
                        assert(self.coefficients@[k].wf());
                        lemma_small_mod(self.coefficients@[k].value as nat, pm as nat);
                    }
                }
            }
        }
        while iter < qlen && rdeg >= d2
            invariant
                iter <= qlen,
                qlen == d1 - d2 + 1,
                0 <= d2 <= d1,
                la == self.coefficients@.len(),
                lb == denominator.coefficients@.len(),
                la + lb <= i32::MAX,
                sv == self.vals(),
                dv == denominator.vals(),
                d1 as int == poly_deg(sv),
                d2 as int == poly_deg(dv),
                d1 < la,
                d2 < lb,
                self.compat(*denominator),
                denominator.coefficients@.len() > 0,
                field == denominator.coefficients@[0].field,
                field.wf(),
                pm == field.p as int,
                pm == self.joint_modulus(*denominator),
                denom_lead.wf(),
                denom_lead.field == field,
                denom_lead.value as int == pcoef(dv, d2 as int),
                denom_lead.value != 0,
                quotient@.len() == qlen,
                forall|j: int|
                    0 <= j < qlen ==> (#[trigger] quotient@[j]).wf() && quotient@[j].field
                        == field,
                remainder.coefficients@.len() <= la + lb,
                forall|j: int|
                    0 <= j < remainder.coefficients@.len() ==> (#[trigger] remainder.coefficients@[j]).wf()
                        && remainder.coefficients@[j].field == field,
                rdeg as int == poly_deg(remainder.vals()),
                rdeg <= d1,
                is_prime(pm) ==> poly_deg(remainder.vals()) - d2 < qlen - iter,
                is_prime(pm) ==> forall|j: int|
                    0 <= j <= poly_deg(remainder.vals()) - d2 ==> (#[trigger] quotient@[j]).value
                        == 0,
                is_prime(pm) ==> forall|k: int|
                    #![trigger pcoef(remainder.vals(), k)]
                    pcoef(sv, k) == (conv_at(vals_of(quotient@), dv, k) + pcoef(
                        remainder.vals(),
                        k,
                    )) % pm,
            decreases qlen - iter,
        {
            let ghost rv0 = remainder.vals();
            proof {
                lemma_deg_bounds(remainder.vals());
            }
            let rem_lead = remainder.leading_coefficient();
            proof {
                assert(rem_lead == remainder.coefficients@[rdeg as int]);
                assert(rem_lead.wf() && rem_lead.field == field);
            }
            let cres = field.divide(&rem_lead, &denom_lead);
            let c = match cres {
                Ok(v) => v,
                Err(_) => {
                    proof {
                        assert(false);
                    }
                    field.zero()
                },
            };
            let shift = (rdeg - d2) as usize;
            let mut mono_vec = zero_vec(field, shift);
            mono_vec.push(c);
            let mono = Polynomial { coefficients: mono_vec };
            let ghost mv = mono.vals();
            proof {
                assert(mv.len() == shift + 1);
                assert(pcoef(mv, shift as int) == c.value as int);
                assert(forall|i: int| 0 <= i < mv.len() && i != shift ==> mv[i] == 0);
                lemma_deg_bounds(mv);
                if c.value == 0 {
                    lemma_deg_none(mv);
                } else {
                    lemma_deg_at(mv, shift as int);
                }
                assert(poly_deg(mv) <= shift as int);
            }
            let subtractee = mono.mul(denominator);
            let ghost bv = subtractee.vals();
            let ghost old_q = vals_of(quotient@);
            quotient.set(shift, c);
            let ghost new_q = vals_of(quotient@);
            proof {
                lemma_deg_bounds(remainder.vals());
                assert(denominator.over(field));
                assert(mono.over(field));
                assert(subtractee.over(field));
                assert(remainder.over(field));
                assert(remainder.coefficients@.len() > 0);
                assert(remainder.compat(subtractee));
                assert(remainder.joint_modulus(subtractee) == pm);
            }
            let new_remainder = remainder.sub(&subtractee);
            proof {
                assert(new_remainder.over(field));
                let rv1 = new_remainder.vals();
                lemma_deg_bounds(rv0);
                lemma_deg_bounds(dv);
                lemma_small_mod(0, pm as nat);
                lemma_mod_self_0(pm);
                // each slot of the subtractee is the scaled, shifted denominator
                assert forall|k: int| #[trigger] pcoef(bv, k) == (c.value as int * pcoef(
                    dv,
                    k - shift,
                )) % pm by {
                    lemma_conv_single(mv, dv, k, shift as int, mv.len());
                    assert(pcoef(bv, k) == conv_at(mv, dv, k) % pm);
                }
                // the new remainder vanishes strictly above the old degree
                assert forall|k: int| k > rdeg implies #[trigger] pcoef(rv1, k) == 0 by {
                    assert(pcoef(rv0, k) == 0);
                    assert(pcoef(dv, k - shift) == 0);
                    lemma_mul_by_zero_is_zero(c.value as int);
                    assert(pcoef(bv, k) == 0);
                    assert(pcoef(rv1, k) == f_sub(pcoef(rv0, k), pcoef(bv, k), pm));
                }
                lemma_deg_bounds(rv1);
                if poly_deg(rv1) > rdeg as int {
                    assert(pcoef(rv1, poly_deg(rv1)) == 0);
                    assert(rv1[poly_deg(rv1)] != 0);
                    assert(false);
                }
                assert(poly_deg(rv1) <= rdeg as int);
                if is_prime(pm) {
                    // the leading terms cancel, so the degree strictly drops
                    assert(pcoef(rv0, rdeg as int) == rem_lead.value as int);
                    assert(rdeg - shift == d2 as int);
                    assert(pcoef(dv, rdeg - shift) == denom_lead.value as int);
                    assert((c.value as int * denom_lead.value as int) % pm
                        == rem_lead.value as int);
                    assert(pcoef(bv, rdeg as int) == rem_lead.value as int);
                    assert(pcoef(rv1, rdeg as int) == f_sub(
                        rem_lead.value as int,
                        rem_lead.value as int,
                        pm,
                    ));
                    assert(pcoef(rv1, rdeg as int) == 0);
                    assert(poly_deg(rv1) < rdeg as int);
                    // the division identity survives the step
                    assert forall|k: int| #![trigger pcoef(rv1, k)]
                        pcoef(sv, k) == (conv_at(new_q, dv, k) + pcoef(rv1, k)) % pm by {
                        lemma_conv_update(old_q, new_q, dv, k, shift as int, old_q.len());
                        assert(pcoef(old_q, shift as int) == 0);
                        assert(pcoef(new_q, shift as int) == c.value as int);
                        let t = c.value as int * pcoef(dv, k - shift);
                        assert(conv_at(new_q, dv, k) == conv_at(old_q, dv, k) + t);
                        assert(pcoef(rv1, k) == f_sub(pcoef(rv0, k), pcoef(bv, k), pm));
                        assert(pcoef(bv, k) == t % pm);
                        assert(pcoef(sv, k) == (conv_at(old_q, dv, k) + pcoef(rv0, k)) % pm);
                        lemma_div_step_identity(
                            conv_at(old_q, dv, k),
                            t,
                            pcoef(rv0, k),
                            pm,
                            pcoef(sv, k),
                        );
                    }
                }
            }
            remainder = new_remainder;
            rdeg = remainder.degree();
            iter = iter + 1;
        }
        let q = Polynomial { coefficients: quotient };
        Ok((q, remainder))
    }
}

/// A prefix of zero coefficients evaluates to zero.
pub proof fn lemma_eval_zeros(s: Seq<int>, x: int, p: int, n: nat)
    requires
        p >= 2,
        forall|k: int| 0 <= k < n ==> pcoef(s, k) == 0,
    ensures
        eval_pre(s, x, p, n) == 0,
    decreases n,
{
    if n > 0 {
        lemma_eval_zeros(s, x, p, (n - 1) as nat);
        lemma_mul_by_zero_is_zero(pow(x, (n - 1) as nat));
        lemma_small_mod(0, p as nat);
    }
}

/// Evaluation is additive: a sequence that is, coefficient by coefficient,
/// the reduced sum of two others evaluates to the reduced sum of their
/// evaluations.
pub proof fn lemma_eval_add(s: Seq<int>, s1: Seq<int>, s2: Seq<int>, x: int, p: int, n: nat)
    requires
        p >= 2,
        forall|k: int| 0 <= k < n ==> pcoef(s, k) % p == (pcoef(s1, k) + pcoef(s2, k)) % p,
    ensures
        eval_pre(s, x, p, n) == (eval_pre(s1, x, p, n) + eval_pre(s2, x, p, n)) % p,
    decreases n,
{
    if n == 0 {
        lemma_small_mod(0, p as nat);
    } else {
        lemma_eval_add(s, s1, s2, x, p, (n - 1) as nat);
        let e = eval_pre(s, x, p, (n - 1) as nat);
        let e1 = eval_pre(s1, x, p, (n - 1) as nat);
        let e2 = eval_pre(s2, x, p, (n - 1) as nat);
        let cs = pcoef(s, n - 1);
        let c1 = pcoef(s1, n - 1);
        let c2 = pcoef(s2, n - 1);
        let w = pow(x, (n - 1) as nat);
        // fold the sum through the reduced head and coefficient
        lemma_scaled_congruence(e1 + e2, cs, w, p);
        lemma_scaled_congruence(e1 + e2, c1 + c2, w, p);
        assert(((e1 + e2) + cs * w) % p == ((e1 + e2) + (c1 + c2) * w) % p);
        lemma_head_congruence(e1 + e2, cs * w, p);
        assert((e + cs * w) % p == ((e1 + e2) + (c1 + c2) * w) % p);
        lemma_mul_is_distributive_add_other_way(w, c1, c2);
        assert((c1 + c2) * w == c1 * w + c2 * w);
        lemma_add_mod_noop(e1 + c1 * w, e2 + c2 * w, p);
        assert(((e1 + c1 * w) % p + (e2 + c2 * w) % p) % p == (e1 + c1 * w + e2 + c2 * w) % p);
    }
}

/// The left factor of a product, scaled by `c` and shifted up by `m`
/// places, with every entry reduced.
pub open spec fn shift_scale(a: Seq<int>, c: int, m: nat, p: int) -> Seq<int> {
    Seq::new(
        a.len() + m,
        |k: int|
            if k < m {
                0
            } else {
                (pcoef(a, k - m) * c) % p
            },
    )
}

/// Evaluating a scaled, shifted sequence multiplies the evaluation by the
/// scale and by the matching power of the point.
pub proof fn lemma_eval_shift_scale(a: Seq<int>, c: int, m: nat, x: int, p: int)
    requires
        p >= 2,
    ensures
        poly_eval(shift_scale(a, c, m, p), x, p) == (pow(x, m) * c * poly_eval(a, x, p)) % p,
    decreases a.len(),
{
    let ss = shift_scale(a, c, m, p);
    if a.len() == 0 {
        lemma_eval_zeros(ss, x, p, ss.len());
        lemma_mul_by_zero_is_zero(pow(x, m) * c);
        lemma_small_mod(0, p as nat);
    } else {
        let a0 = a.drop_last();
        let al = a.last();
        let la = a.len();
        let ss0 = shift_scale(a0, c, m, p);
        lemma_eval_shift_scale(a0, c, m, x, p);
        assert(forall|k: int| 0 <= k < ss0.len() ==> pcoef(ss, k) == pcoef(ss0, k));
        lemma_eval_pre_congruent(ss, ss0, x, p, (la - 1 + m) as nat);
        let sprev = poly_eval(ss0, x, p);
        let w = pow(x, (la - 1 + m) as nat);
        let v = pow(x, (la - 1) as nat);
        let wm = pow(x, m);
        assert(pcoef(ss, la - 1 + m) == (al * c) % p);
        assert(poly_eval(ss, x, p) == (sprev + ((al * c) % p) * w) % p);
        lemma_scaled_congruence(sprev, al * c, w, p);
        assert(poly_eval(ss, x, p) == (sprev + (al * c) * w) % p);
        lemma_head_congruence(wm * c * poly_eval(a0, x, p), (al * c) * w, p);
        assert(poly_eval(ss, x, p) == (wm * c * poly_eval(a0, x, p) + (al * c) * w) % p);
        // the whole evaluation, pulled apart the same way
        let ea = poly_eval(a, x, p);
        assert(forall|k: int| 0 <= k < a0.len() ==> pcoef(a, k) == pcoef(a0, k));
        lemma_eval_pre_congruent(a, a0, x, p, (la - 1) as nat);
        assert(ea == (poly_eval(a0, x, p) + al * v) % p);
        lemma_mul_is_associative(wm, c, (poly_eval(a0, x, p) + al * v) % p);
        lemma_mul_mod_noop_right(wm * c, poly_eval(a0, x, p) + al * v, p);
        assert((wm * c * ea) % p == (wm * c * (poly_eval(a0, x, p) + al * v)) % p);
        lemma_pow_adds(x, (la - 1) as nat, m);
        assert(v * wm == w);
        assert(wm * c * (poly_eval(a0, x, p) + al * v) == wm * c * poly_eval(a0, x, p) + (al * c)
            * w) by (nonlinear_arith)
            requires
                v * wm == w,
        ;
    }
}

/// Splitting the last coefficient off the right factor splits the
/// convolution into the shorter convolution plus one scaled term.
pub proof fn lemma_conv_split_last(a: Seq<int>, b: Seq<int>, k: int, n: nat)
    requires
        b.len() > 0,
    ensures
        conv_partial(a, b, k, n) == conv_partial(a, b.drop_last(), k, n) + if 0 <= k - (b.len()
            - 1) < n {
            pcoef(a, k - (b.len() - 1)) * b.last()
        } else {
            0
        },
    decreases n,
{
    let m = b.len() - 1;
    if n > 0 {
        lemma_conv_split_last(a, b, k, (n - 1) as nat);
        let i = n - 1;
        if k - i == m {
            assert(pcoef(b, k - i) == b.last());
            assert(pcoef(b.drop_last(), k - i) == 0);
            lemma_mul_by_zero_is_zero(pcoef(a, i));
        } else {
            assert(pcoef(b, k - i) == pcoef(b.drop_last(), k - i));
        }
    }
}

/// The reduced convolution of two coefficient sequences, wide enough to
/// hold every nonzero output.
pub open spec fn conv_seq(a: Seq<int>, b: Seq<int>, p: int) -> Seq<int> {
    Seq::new(a.len() + b.len(), |k: int| conv_at(a, b, k) % p)
}

/// Evaluating a product evaluates the factors: the ring homomorphism from
/// coefficient sequences to values at a fixed point.
pub proof fn lemma_eval_conv(a: Seq<int>, b: Seq<int>, x: int, p: int)
    requires
        p >= 2,
    ensures
        poly_eval(conv_seq(a, b, p), x, p) == (poly_eval(a, x, p) * poly_eval(b, x, p)) % p,
    decreases b.len(),
{
    let cs = conv_seq(a, b, p);
    lemma_small_mod(0, p as nat);
    if b.len() == 0 {
        lemma_deg_none(b);
        assert forall|k: int| 0 <= k < cs.len() implies pcoef(cs, k) == 0 by {
            lemma_conv_right_zero(a, b, k, a.len());
        }
        lemma_eval_zeros(cs, x, p, cs.len());
        lemma_mul_by_zero_is_zero(poly_eval(a, x, p));
    } else {
        let b0 = b.drop_last();
        let bl = b.last();
        let m = (b.len() - 1) as nat;
        lemma_eval_conv(a, b0, x, p);
        let cs0 = conv_seq(a, b0, p);
        let ss = shift_scale(a, bl, m, p);
        lemma_eval_shift_scale(a, bl, m, x, p);
        // the wide convolution is, slot by slot, the sum of the two parts
        assert forall|k: int| 0 <= k < cs.len() implies pcoef(cs, k) % p == (pcoef(cs0, k)
            + pcoef(ss, k)) % p by {
            lemma_conv_split_last(a, b, k, a.len());
            let t = if 0 <= k - m < a.len() {
                pcoef(a, k - m) * bl
            } else {
                0
            };
            assert(conv_at(a, b, k) == conv_at(a, b0, k) + t);
            lemma_mod_twice(conv_at(a, b, k), p);
            assert(pcoef(cs, k) % p == (conv_at(a, b0, k) + t) % p);
            if 0 <= k < cs0.len() {
                assert(pcoef(cs0, k) == conv_at(a, b0, k) % p);
            } else {
                lemma_deg_bounds(a);
                lemma_deg_bounds(b0);
                lemma_conv_outside(a, b0, k, a.len());
                assert(pcoef(cs0, k) == 0);
            }
            let tss = if m <= k < ss.len() {
                (pcoef(a, k - m) * bl) % p
            } else {
                0
            };
            assert(pcoef(ss, k) == tss);
            if 0 <= k - m < a.len() {
                assert(k - m >= 0 && k < a.len() + m && m <= k);
                assert(tss == t % p);
            } else {
                if k - m >= 0 && k >= m && k < ss.len() {
                    assert(pcoef(a, k - m) == 0);
                    lemma_mul_by_zero_is_zero(bl);
                    assert(tss == 0int % p);
                }
                assert(t == 0);
                assert(tss == 0);
            }
            // both sides reduce to (conv0 + t) % p
            lemma_add_mod_noop(conv_at(a, b0, k), t, p);
            lemma_mod_twice(conv_at(a, b0, k), p);
            lemma_mod_twice(t, p);
            lemma_add_mod_noop(pcoef(cs0, k), pcoef(ss, k), p);
        }
        lemma_eval_add(cs, cs0, ss, x, p, cs.len());
        lemma_eval_pre_beyond(cs0, x, p, cs.len());
        lemma_eval_pre_beyond(ss, x, p, cs.len());
        let ea = poly_eval(a, x, p);
        let eb0 = poly_eval(b0, x, p);
        let wm = pow(x, m);
        assert(poly_eval(cs, x, p) == ((ea * eb0) % p + (wm * bl * ea) % p) % p);
        lemma_add_mod_noop(ea * eb0, wm * bl * ea, p);
        assert(poly_eval(cs, x, p) == (ea * eb0 + wm * bl * ea) % p);
        // the factorisation of the right side
        assert(forall|k: int| 0 <= k < b0.len() ==> pcoef(b, k) == pcoef(b0, k));
        lemma_eval_pre_congruent(b, b0, x, p, m);
        assert(poly_eval(b, x, p) == (eb0 + bl * wm) % p);
        lemma_mul_mod_noop_right(ea, eb0 + bl * wm, p);
        assert((ea * poly_eval(b, x, p)) % p == (ea * (eb0 + bl * wm)) % p);
        assert(ea * (eb0 + bl * wm) == ea * eb0 + wm * bl * ea) by (nonlinear_arith);
    }
}

/// A sequence that matches the reduced convolution of two factors slot by
/// slot evaluates to the reduced product of their evaluations.
pub proof fn lemma_eval_matches_conv(a: Seq<int>, b: Seq<int>, c: Seq<int>, x: int, p: int)
    requires
        p >= 2,
        forall|k: int| #![trigger pcoef(c, k)] pcoef(c, k) == conv_at(a, b, k) % p,
    ensures
        poly_eval(c, x, p) == (poly_eval(a, x, p) * poly_eval(b, x, p)) % p,
{
    let cs = conv_seq(a, b, p);
    let n = if c.len() >= cs.len() {
        c.len()
    } else {
        cs.len()
    };
    assert forall|k: int| 0 <= k < n implies pcoef(c, k) % p == pcoef(cs, k) % p by {
        lemma_mod_bound(conv_at(a, b, k), p);
        lemma_mod_twice(conv_at(a, b, k), p);
        if 0 <= k < cs.len() {
        } else {
            lemma_deg_bounds(a);
            lemma_deg_bounds(b);
            lemma_conv_outside(a, b, k, a.len());
            lemma_small_mod(0, p as nat);
        }
    }
    lemma_eval_pre_congruent(c, cs, x, p, n as nat);
    lemma_eval_pre_beyond(c, x, p, n as nat);
    lemma_eval_pre_beyond(cs, x, p, n as nat);
    lemma_eval_conv(a, b, x, p);
}

/// Zeros at and above an index bound the degree by it.
pub proof fn lemma_deg_le_from_pcoef(s: Seq<int>, d: int)
    requires
        d >= -1,
        forall|k: int| k > d ==> #[trigger] pcoef(s, k) == 0,
    ensures
        poly_deg(s) <= d,
{
    lemma_deg_bounds(s);
    if poly_deg(s) > d {
        assert(pcoef(s, poly_deg(s)) == 0);
        assert(s[poly_deg(s)] != 0);
        assert(false);
    }
}

/// A nonzero entry with zeros above it pins the degree.
pub proof fn lemma_deg_from_pcoef(s: Seq<int>, d: int)
    requires
        d >= 0,
        pcoef(s, d) != 0,
        forall|k: int| k > d ==> #[trigger] pcoef(s, k) == 0,
    ensures
        poly_deg(s) == d,
{
    assert(0 <= d < s.len());
    assert forall|i: int| d < i < s.len() implies s[i] == 0 by {
        assert(pcoef(s, i) == 0);
    }
    lemma_deg_at(s, d);
}

/// The top convolution slot is the product of the leading coefficients.
pub proof fn lemma_conv_leading(a: Seq<int>, b: Seq<int>, n: nat)
    requires
        poly_deg(a) >= 0,
        poly_deg(b) >= 0,
    ensures
        conv_partial(a, b, poly_deg(a) + poly_deg(b), n) == if n > poly_deg(a) {
            a[poly_deg(a)] * b[poly_deg(b)]
        } else {
            0
        },
    decreases n,
{
    lemma_deg_bounds(a);
    lemma_deg_bounds(b);
    let k = poly_deg(a) + poly_deg(b);
    if n > 0 {
        lemma_conv_leading(a, b, (n - 1) as nat);
        let i = n - 1;
        if i == poly_deg(a) {
            assert(pcoef(a, i) == a[poly_deg(a)]);
            assert(pcoef(b, k - i) == b[poly_deg(b)]);
        } else if i < poly_deg(a) {
            assert(k - i > poly_deg(b));
            assert(pcoef(b, k - i) == 0);
            lemma_mul_by_zero_is_zero(pcoef(a, i));
        } else {
            assert(pcoef(a, i) == 0);
            lemma_mul_by_zero_is_zero(pcoef(b, k - i));
        }
    }
}

/// The value of a two-coefficient sequence: an affine map of the point.
pub proof fn lemma_eval_deg1(s: Seq<int>, x: int, p: int)
    requires
        p >= 2,
        s.len() == 2,
        0 <= s[0] < p,
    ensures
        poly_eval(s, x, p) == (s[0] + s[1] * x) % p,
{
    lemma_pow0(x);
    lemma_pow1(x);
    lemma_small_mod(s[0] as nat, p as nat);
    lemma_mul_basics(s[0]);
    assert(eval_pre(s, x, p, 0) == 0);
    assert(pcoef(s, 0) == s[0] && pow(x, 0) == 1);
    assert(eval_pre(s, x, p, 1) == (0 + s[0] * 1) % p);
    assert(eval_pre(s, x, p, 1) == s[0]);
    assert(pcoef(s, 1) == s[1] && pow(x, 1) == x);
    assert(poly_eval(s, x, p) == (eval_pre(s, x, p, 1) + s[1] * x) % p);
    lemma_head_congruence(s[0], s[1] * x, p);
    assert((s[0] % p + s[1] * x) % p == (s[0] + s[1] * x) % p);
}

/// The value of a one-coefficient sequence: the constant itself.
pub proof fn lemma_eval_const(s: Seq<int>, x: int, p: int)
    requires
        p >= 2,
        s.len() == 1,
        0 <= s[0] < p,
    ensures
        poly_eval(s, x, p) == s[0],
{
    lemma_pow0(x);
    lemma_mul_basics(s[0]);
    lemma_small_mod(s[0] as nat, p as nat);
    assert(eval_pre(s, x, p, 0) == 0);
    assert(pcoef(s, 0) == s[0] && pow(x, 0) == 1);
    assert(poly_eval(s, x, p) == (0 + s[0] * 1) % p);
}

/// A sequence that matches the reduced coefficient sum of two factors
/// evaluates to the reduced sum of their evaluations.
pub proof fn lemma_eval_matches_add(a: Seq<int>, b: Seq<int>, c: Seq<int>, x: int, p: int)
    requires
        p >= 2,
        forall|k: int| #![trigger pcoef(c, k)] pcoef(c, k) == f_add(pcoef(a, k), pcoef(b, k), p),
    ensures
        poly_eval(c, x, p) == (poly_eval(a, x, p) + poly_eval(b, x, p)) % p,
{
    let n0 = if a.len() >= b.len() {
        a.len()
    } else {
        b.len()
    };
    let n = if c.len() >= n0 {
        c.len()
    } else {
        n0
    };
    assert forall|k: int| 0 <= k < n implies pcoef(c, k) % p == (pcoef(a, k) + pcoef(b, k))
        % p by {
        lemma_mod_twice(pcoef(a, k) + pcoef(b, k), p);
    }
    lemma_eval_add(c, a, b, x, p, n as nat);
    lemma_eval_pre_beyond(c, x, p, n as nat);
    lemma_eval_pre_beyond(a, x, p, n as nat);
    lemma_eval_pre_beyond(b, x, p, n as nat);
}

/// The canonical difference of two canonical residues is zero exactly when
/// they are equal.
pub proof fn lemma_sub_zero_iff(a: int, b: int, p: int)
    requires
        p >= 2,
        0 <= a < p,
        0 <= b < p,
    ensures
        (f_sub(a, b, p) == 0) <==> a == b,
{
    if a >= b {
        lemma_fundamental_div_mod_converse_mod(p + a - b, p, 1, a - b);
    } else {
        lemma_fundamental_div_mod_converse_mod(p + a - b, p, 0, p + a - b);
    }
}

impl Polynomial {
    /// The monic polynomial whose roots are exactly the domain: the product
    /// of `x - d` over all domain points `d`.  Its degree is the domain
    /// size, and it evaluates to zero on every domain point.
    pub fn zerofier_domain(domain: &Vec<FieldElement>) -> (r: Polynomial)
        requires
            domain@.len() > 0,
            domain@.len() + 3 <= i32::MAX,
            forall|i: int|
                0 <= i < domain@.len() ==> (#[trigger] domain@[i]).wf() && domain@[i].field
                    == domain@[0].field,
        ensures
            r.over(domain@[0].field),
            r.coefficients@.len() <= domain@.len() + 2,
            poly_deg(r.vals()) == domain@.len(),
            pcoef(r.vals(), domain@.len() as int) == 1,
            forall|i: int|
                0 <= i < domain@.len() ==> poly_eval(
                    r.vals(),
                    (#[trigger] domain@[i]).value as int,
                    domain@[0].field.p as int,
                ) == 0,
    {
        let field = domain[0].field;
        let ghost pp = field.p as int;
        let n = domain.len();
        let one = field.one();
        let mut acc_vec: Vec<FieldElement> = Vec::new();
        acc_vec.push(one);
        let mut acc = Polynomial { coefficients: acc_vec };
        proof {
            assert(acc.vals() =~= seq![1int]);
            lemma_deg_from_pcoef(acc.vals(), 0);
        }
        let mut i: usize = 0;
        while i < n
            invariant
                i <= n,
                n == domain@.len(),
                n + 3 <= i32::MAX,
                forall|j: int|
                    0 <= j < n ==> (#[trigger] domain@[j]).wf() && domain@[j].field
                        == domain@[0].field,
                field == domain@[0].field,
                field.wf(),
                pp == field.p as int,
                acc.over(field),
                acc.coefficients@.len() <= i + 2,
                poly_deg(acc.vals()) == i,
                pcoef(acc.vals(), i as int) == 1,
                forall|j: int|
                    0 <= j < i ==> poly_eval(
                        acc.vals(),
                        (#[trigger] domain@[j]).value as int,
                        pp,
                    ) == 0,
            decreases n - i,
        {
            let d = domain[i];
            let mut xd_vec: Vec<FieldElement> = Vec::new();
            xd_vec.push(field.negate(&d));
            xd_vec.push(field.one());
            let xd = Polynomial { coefficients: xd_vec };
            let ghost av = acc.vals();
            let ghost xv = xd.vals();
            proof {
                assert(xv.len() == 2);
                assert(xv[1] == 1);
                lemma_deg_from_pcoef(xv, 1);
                assert(acc.compat(xd));
            }
            let next = acc.mul(&xd);
            proof {
                let nv = next.vals();
                lemma_deg_bounds(av);
                lemma_deg_bounds(xv);
                // the product stays monic one degree higher
                lemma_conv_leading(av, xv, av.len());
                assert(conv_at(av, xv, i + 1) == 1);
                lemma_small_mod(1, pp as nat);
                assert(pcoef(nv, i + 1) == 1);
                assert forall|k: int| k > i + 1 implies #[trigger] pcoef(nv, k) == 0 by {
                    lemma_conv_outside(av, xv, k, av.len());
                    lemma_small_mod(0, pp as nat);
                }
                lemma_deg_from_pcoef(nv, i + 1);
                // it vanishes on every point seen so far, and on this one
                assert forall|j: int| 0 <= j < i + 1 implies poly_eval(
                    nv,
                    (#[trigger] domain@[j]).value as int,
                    pp,
                ) == 0 by {
                    let t = domain@[j].value as int;
                    lemma_eval_matches_conv(av, xv, nv, t, pp);
                    lemma_eval_deg1(xv, t, pp);
                    lemma_small_mod(0, pp as nat);
                    if j < i {
                        assert(poly_eval(av, t, pp) == 0);
                        lemma_mul_by_zero_is_zero(poly_eval(xv, t, pp));
                    } else {
                        assert(xv[0] == f_neg(d.value as int, pp));
                        assert(poly_eval(xv, t, pp) == (f_neg(d.value as int, pp) + t) % pp);
                        if d.value == 0 {
                            lemma_mod_self_0(pp);
                            lemma_small_mod(0, pp as nat);
                            assert(f_neg(0, pp) == 0);
                            lemma_small_mod(t as nat, pp as nat);
                            assert((f_neg(0, pp) + t) % pp == t % pp);
                            assert(poly_eval(xv, t, pp) == 0);
                        } else {
                            lemma_small_mod((pp - d.value) as nat, pp as nat);
                            assert(f_neg(d.value as int, pp) == pp - d.value);
                            lemma_mod_self_0(pp);
                            assert((pp - d.value + t) % pp == 0);
                        }
                        lemma_mul_by_zero_is_zero(poly_eval(av, t, pp));
                    }
                }
            }
            acc = next;
            i = i + 1;
        }
        acc
    }
}

/// Every two positions of a domain hold different values.
pub open spec fn distinct_vals(d: Seq<FieldElement>) -> bool {
    forall|i: int, j: int|
        0 <= i < d.len() && 0 <= j < d.len() && i != j ==> (#[trigger] d[i]).value != (
        #[trigger] d[j]).value
}

impl Polynomial {
    /// Lagrange interpolation: the polynomial of degree below the domain
    /// size that takes the given value at each domain point.  The domain
    /// and value lists must have one common nonzero length, and the domain
    /// points must be pairwise distinct; each violation is reported as its
    /// own error.
    pub fn interpolate_domain(domain: &Vec<FieldElement>, values: &Vec<FieldElement>) -> (res:
        Result<Polynomial, PolynomialError>)
        requires
            domain@.len() + 4 <= i32::MAX,
            forall|i: int|
                0 <= i < domain@.len() ==> (#[trigger] domain@[i]).wf() && domain@[i].field
                    == domain@[0].field,
            forall|i: int|
                0 <= i < values@.len() ==> (#[trigger] values@[i]).wf() && (domain@.len() > 0
                    ==> values@[i].field == domain@[0].field),
        ensures
            (res matches Err(e) && e == PolynomialError::LengthMismatch) <==> domain@.len()
                != values@.len(),
            (res matches Err(e) && e == PolynomialError::EmptyDomain) <==> (domain@.len()
                == values@.len() && domain@.len() == 0),
            domain@.len() == values@.len() && domain@.len() > 0 ==> (res is Ok <==> distinct_vals(
                domain@,
            )),
            res is Err ==> (res matches Err(e) && (e == PolynomialError::LengthMismatch || e
                == PolynomialError::EmptyDomain || e == PolynomialError::DuplicatePoint)),
            res matches Ok(poly) ==> {
                &&& poly.over(domain@[0].field)
                &&& poly.coefficients@.len() <= domain@.len() + 2
                &&& poly_deg(poly.vals()) < domain@.len()
                &&& is_prime(domain@[0].field.p as int) ==> forall|i: int|
                    0 <= i < domain@.len() ==> poly_eval(
                        poly.vals(),
                        (#[trigger] domain@[i]).value as int,
                        domain@[0].field.p as int,
                    ) == values@[i].value as int
            },
    {
        let n = domain.len();
        if n != values.len() {
            return Err(PolynomialError::LengthMismatch);
        }
        if n == 0 {
            return Err(PolynomialError::EmptyDomain);
        }
        let field = domain[0].field;
        let ghost pp = field.p as int;
        let mut acc = Polynomial { coefficients: Vec::new() };
        let mut i: usize = 0;
        while i < n
            invariant
                i <= n,
                n == domain@.len(),
                n == values@.len(),
                n > 0,
                n + 4 <= i32::MAX,
                forall|t: int|
                    0 <= t < n ==> (#[trigger] domain@[t]).wf() && domain@[t].field
                        == domain@[0].field,
                forall|t: int|
                    0 <= t < n ==> (#[trigger] values@[t]).wf() && values@[t].field
                        == domain@[0].field,
                field == domain@[0].field,
                field.wf(),
                pp == field.p as int,
                acc.over(field),
                acc.coefficients@.len() <= n + 2,
                poly_deg(acc.vals()) < n,
                forall|i2: int, j2: int|
                    0 <= i2 < i && 0 <= j2 < n && i2 != j2 ==> (#[trigger] domain@[i2]).value
                        != (#[trigger] domain@[j2]).value,
                is_prime(pp) ==> forall|i2: int|
                    0 <= i2 < i ==> poly_eval(
                        acc.vals(),
                        (#[trigger] domain@[i2]).value as int,
                        pp,
                    ) == values@[i2].value as int,
                forall|j2: int|
                    i <= j2 < n ==> poly_eval(
                        acc.vals(),
                        (#[trigger] domain@[j2]).value as int,
                        pp,
                    ) == 0,
            decreases n - i,
        {
            let di = domain[i];
            let mut prod_vec: Vec<FieldElement> = Vec::new();
            prod_vec.push(values[i]);
            let mut prod = Polynomial { coefficients: prod_vec };
            proof {
                assert(prod.vals() =~= seq![values@[i as int].value as int]);
                lemma_deg_bounds(prod.vals());
                assert forall|t: int| true implies poly_eval(prod.vals(), t, pp)
                    == values@[i as int].value as int by {
                    lemma_eval_const(prod.vals(), t, pp);
                }
            }
            let mut j: usize = 0;
            while j < n
                invariant
                    j <= n,
                    i < n,
                    n == domain@.len(),
                    n == values@.len(),
                    n + 4 <= i32::MAX,
                    forall|t: int|
                        0 <= t < n ==> (#[trigger] domain@[t]).wf() && domain@[t].field
                            == domain@[0].field,
                    forall|t: int|
                        0 <= t < n ==> (#[trigger] values@[t]).wf() && values@[t].field
                            == domain@[0].field,
                    field == domain@[0].field,
                    field.wf(),
                    pp == field.p as int,
                    di == domain@[i as int],
                    acc.over(field),
                    acc.coefficients@.len() <= n + 2,
                    poly_deg(acc.vals()) < n,
                    forall|i2: int, j2: int|
                        0 <= i2 < i && 0 <= j2 < n && i2 != j2 ==> (#[trigger] domain@[i2]).value
                            != (#[trigger] domain@[j2]).value,
                    is_prime(pp) ==> forall|i2: int|
                        0 <= i2 < i ==> poly_eval(
                            acc.vals(),
                            (#[trigger] domain@[i2]).value as int,
                            pp,
                        ) == values@[i2].value as int,
                    forall|j2: int|
                        i <= j2 < n ==> poly_eval(
                            acc.vals(),
                            (#[trigger] domain@[j2]).value as int,
                            pp,
                        ) == 0,
                    prod.over(field),
                    prod.coefficients@.len() <= n + 2,
                    poly_deg(prod.vals()) <= j - (if j > i { 1int } else { 0int }),
                    forall|j2: int|
                        0 <= j2 < j && j2 != i ==> domain@[j2].value != di.value,
                    is_prime(pp) ==> poly_eval(prod.vals(), di.value as int, pp)
                        == values@[i as int].value as int,
                    forall|j2: int|
                        0 <= j2 < j && j2 != i ==> poly_eval(
                            prod.vals(),
                            (#[trigger] domain@[j2]).value as int,
                            pp,
                        ) == 0,
                decreases n - j,
            {
                if j != i {
                    let dj = domain[j];
                    let diff = field.subtract(&di, &dj);
                    proof {
                        lemma_sub_zero_iff(di.value as int, dj.value as int, pp);
                    }
                    if diff.value == 0 {
                        proof {
                            assert(domain@[i as int].value == domain@[j as int].value);
                            assert(!distinct_vals(domain@));
                        }
                        return Err(PolynomialError::DuplicatePoint);
                    }
                    let inv = match field.inverse(&diff) {
                        Ok(v) => v,
                        Err(_) => {
                            proof {
                                assert(false);
                            }
                            field.zero()
                        },
                    };
                    let mut xd_vec: Vec<FieldElement> = Vec::new();
                    xd_vec.push(field.negate(&dj));
                    xd_vec.push(field.one());
                    let xd = Polynomial { coefficients: xd_vec };
                    let ghost pv = prod.vals();
                    let ghost xv = xd.vals();
                    proof {
                        assert(xv.len() == 2);
                        assert(xv[1] == 1);
                        lemma_deg_from_pcoef(xv, 1);
                        lemma_deg_bounds(pv);
                        assert(prod.compat(xd));
                    }
                    let p1 = prod.mul(&xd);
                    let mut iv_vec: Vec<FieldElement> = Vec::new();
                    iv_vec.push(inv);
                    let ivp = Polynomial { coefficients: iv_vec };
                    let ghost p1v = p1.vals();
                    let ghost iv = ivp.vals();
                    proof {
                        assert(iv =~= seq![inv.value as int]);
                        lemma_deg_bounds(iv);
                        lemma_deg_bounds(p1v);
                        assert forall|k: int| k > poly_deg(pv) + 1 implies #[trigger] pcoef(
                            p1v,
                            k,
                        ) == 0 by {
                            lemma_conv_outside(pv, xv, k, pv.len());
                            lemma_small_mod(0, pp as nat);
                        }
                        lemma_deg_le_from_pcoef(p1v, poly_deg(pv) + 1);
                        assert(p1.compat(ivp));
                    }
                    let p2 = p1.mul(&ivp);
                    proof {
                        let p2v = p2.vals();
                        assert forall|k: int| k > poly_deg(pv) + 1 implies #[trigger] pcoef(
                            p2v,
                            k,
                        ) == 0 by {
                            lemma_deg_bounds(iv);
                            lemma_conv_outside(p1v, iv, k, p1v.len());
                            lemma_small_mod(0, pp as nat);
                        }
                        lemma_deg_le_from_pcoef(p2v, poly_deg(pv) + 1);
                        // the two multiplications at any point t
                        assert forall|t: int| true implies poly_eval(p2v, t, pp) == ((poly_eval(
                            pv,
                            t,
                            pp,
                        ) * poly_eval(xv, t, pp)) % pp * inv.value as int) % pp by {
                            lemma_eval_matches_conv(pv, xv, p1v, t, pp);
                            lemma_eval_matches_conv(p1v, iv, p2v, t, pp);
                            lemma_eval_const(iv, t, pp);
                        }
                        // the linear factor's value
                        assert forall|t: int| 0 <= t < pp implies poly_eval(xv, t, pp) == f_sub(
                            t,
                            dj.value as int,
                            pp,
                        ) by {
                            lemma_eval_deg1(xv, t, pp);
                            assert(xv[0] == f_neg(dj.value as int, pp));
                            if dj.value == 0 {
                                lemma_mod_self_0(pp);
                                lemma_small_mod(0, pp as nat);
                                lemma_mul_basics(t);
                                assert((xv[0] + 1 * t) % pp == (pp + t - 0) % pp) by {
                                    lemma_mod_add_multiples_vanish(t, pp);
                                };
                            } else {
                                lemma_small_mod((pp - dj.value) as nat, pp as nat);
                                lemma_mul_basics(t);
                            }
                        }
                        if is_prime(pp) {
                            // at the anchor point the two factors cancel to one
                            let t0 = di.value as int;
                            let e0 = poly_eval(pv, t0, pp);
                            let dd = diff.value as int;
                            let ii = inv.value as int;
                            assert(poly_eval(xv, t0, pp) == dd);
                            assert((dd * ii) % pp == 1);
                            lemma_mul_mod_noop_left(e0 * dd, ii, pp);
                            lemma_mul_is_associative(e0, dd, ii);
                            lemma_mul_mod_noop_right(e0, dd * ii, pp);
                            lemma_mul_basics(e0);
                            lemma_eval_pre_bound(pv, t0, pp, pv.len());
                            lemma_small_mod(e0 as nat, pp as nat);
                            assert(poly_eval(p2v, t0, pp) == (e0 * 1) % pp);
                            assert(poly_eval(p2v, t0, pp) == values@[i as int].value as int);
                        }
                        // it vanishes where the old product vanished
                        assert forall|j2: int| 0 <= j2 < j && j2 != i implies poly_eval(
                            p2v,
                            (#[trigger] domain@[j2]).value as int,
                            pp,
                        ) == 0 by {
                            let t0 = domain@[j2].value as int;
                            assert(poly_eval(pv, t0, pp) == 0);
                            lemma_mul_by_zero_is_zero(poly_eval(xv, t0, pp));
                            lemma_small_mod(0, pp as nat);
                            lemma_mul_by_zero_is_zero(inv.value as int);
                        }
                        // and at the point just folded in
                        assert(poly_eval(p2v, dj.value as int, pp) == 0) by {
                            let t0 = dj.value as int;
                            assert(poly_eval(xv, t0, pp) == f_sub(t0, t0, pp));
                            lemma_sub_zero_iff(t0, t0, pp);
                            lemma_mul_by_zero_is_zero(poly_eval(pv, t0, pp));
                            lemma_small_mod(0, pp as nat);
                            lemma_mul_by_zero_is_zero(inv.value as int);
                        }
                    }
                    prod = p2;
                }
                j = j + 1;
            }
            let next = acc.add(&prod);
            proof {
                let av = acc.vals();
                let qv = prod.vals();
                let nv = next.vals();
                let pm2 = acc.joint_modulus(prod);
                lemma_small_mod(0, pp as nat);
                if acc.coefficients@.len() == 0 && prod.coefficients@.len() == 0 {
                    assert forall|t: int| true implies poly_eval(nv, t, pp) == (poly_eval(
                        av,
                        t,
                        pp,
                    ) + poly_eval(qv, t, pp)) % pp by {
                        lemma_deg_none(av);
                        assert(poly_deg(av) == -1);
                        assert(next.coefficients@ == prod.coefficients@);
                        assert(poly_eval(av, t, pp) == 0);
                        assert(poly_eval(qv, t, pp) == 0);
                        assert(poly_eval(nv, t, pp) == 0);
                    }
                } else {
                    assert(pm2 == pp);
                    assert forall|t: int| true implies poly_eval(nv, t, pp) == (poly_eval(
                        av,
                        t,
                        pp,
                    ) + poly_eval(qv, t, pp)) % pp by {
                        lemma_eval_matches_add(av, qv, nv, t, pp);
                    }
                }
                if is_prime(pp) {
                    assert forall|i2: int| 0 <= i2 < i + 1 implies poly_eval(
                        nv,
                        (#[trigger] domain@[i2]).value as int,
                        pp,
                    ) == values@[i2].value as int by {
                        let t0 = domain@[i2].value as int;
                        lemma_eval_pre_bound(av, t0, pp, av.len());
                        lemma_eval_pre_bound(qv, t0, pp, qv.len());
                        if i2 < i {
                            assert(poly_eval(av, t0, pp) == values@[i2].value as int);
                            assert(poly_eval(qv, t0, pp) == 0);
                            lemma_small_mod(values@[i2].value as nat, pp as nat);
                        } else {
                            assert(poly_eval(av, t0, pp) == 0);
                            assert(poly_eval(qv, t0, pp) == values@[i2].value as int);
                            lemma_small_mod(values@[i2].value as nat, pp as nat);
                        }
                    }
                }
                assert forall|j2: int| i + 1 <= j2 < n implies poly_eval(
                    nv,
                    (#[trigger] domain@[j2]).value as int,
                    pp,
                ) == 0 by {
                    let t0 = domain@[j2].value as int;
                    assert(poly_eval(av, t0, pp) == 0);
                    assert(poly_eval(qv, t0, pp) == 0);
                }
                // the sum's degree stays below the domain size
                assert forall|k: int| k > n - 1 implies #[trigger] pcoef(nv, k) == 0 by {
                    lemma_deg_bounds(av);
                    lemma_deg_bounds(qv);
                    assert(pcoef(av, k) == 0);
                    assert(pcoef(qv, k) == 0);
                    assert(pcoef(nv, k) == f_add(pcoef(av, k), pcoef(qv, k), pm2));
                    lemma_small_mod(0, pm2 as nat);
                }
                lemma_deg_le_from_pcoef(nv, n - 1);
            }
            acc = next;
            i = i + 1;
        }
        Ok(acc)
    }
}

/// A polynomial power evaluates to the power of the evaluation: at every
/// point, `base^e` takes the value `base(x)^e` modulo `p`.
pub proof fn law_power_evaluates(base: Seq<int>, e: nat, x: int, p: int)
    requires
        p >= 2,
    ensures
        poly_eval(ppow(base, e, p), x, p) == pow(poly_eval(base, x, p), e) % p,
    decreases e,
{
    let eb = poly_eval(base, x, p);
    if e == 0 {
        lemma_eval_const(ppow(base, 0, p), x, p);
        lemma_pow0(eb);
        lemma_small_mod(1, p as nat);
    } else {
        law_power_evaluates(base, e / 2, x, p);
        let h = ppow(base, e / 2, p);
        let hh = conv_seq(h, h, p);
        let em = poly_eval(h, x, p);
        lemma_eval_conv(h, h, x, p);
        assert(poly_eval(hh, x, p) == (em * em) % p);
        lemma_mul_mod_noop(pow(eb, e / 2), pow(eb, e / 2), p);
        lemma_pow_adds(eb, e / 2, e / 2);
        assert((em * em) % p == pow(eb, (e / 2 + e / 2) as nat) % p);
        if e % 2 == 1 {
            lemma_eval_conv(hh, base, x, p);
            assert(poly_eval(ppow(base, e, p), x, p) == (poly_eval(hh, x, p) * eb) % p);
            lemma_mul_mod_noop_left(pow(eb, (e / 2 + e / 2) as nat), eb, p);
            lemma_pow_adds(eb, (e / 2 + e / 2) as nat, 1);
            lemma_pow1(eb);
            assert(pow(eb, (e / 2 + e / 2) as nat) * eb == pow(eb, e));
        } else {
            assert(e / 2 + e / 2 == e);
        }
    }
}

/// The sequences `q` and `r` witness a Euclidean division of `s` by `d`
/// modulo `p`: every coefficient of `s` is the reduced sum of the product
/// row and the remainder.
pub open spec fn divides_with(s: Seq<int>, d: Seq<int>, q: Seq<int>, r: Seq<int>, p: int) -> bool {
    forall|k: int| #![trigger pcoef(r, k)] pcoef(s, k) == (conv_at(q, d, k) + pcoef(r, k)) % p
}

/// The residues of a coefficient sequence modulo `p`.
pub open spec fn reduce(s: Seq<int>, p: int) -> Seq<int> {
    Seq::new(s.len(), |k: int| pcoef(s, k) % p)
}

/// The degree of a sequence read modulo `p`: the highest index holding a
/// nonzero residue.
pub open spec fn mdeg(s: Seq<int>, p: int) -> int {
    poly_deg(reduce(s, p))
}

/// Bounds and witnesses for the modular degree.
pub proof fn lemma_mdeg_bounds(s: Seq<int>, p: int)
    requires
        p >= 2,
    ensures
        -1 <= mdeg(s, p) < s.len(),
        mdeg(s, p) >= 0 ==> pcoef(s, mdeg(s, p)) % p != 0,
        forall|k: int| k > mdeg(s, p) ==> #[trigger] pcoef(s, k) % p == 0,
{
    lemma_deg_bounds(reduce(s, p));
    assert forall|k: int| k > mdeg(s, p) implies #[trigger] pcoef(s, k) % p == 0 by {
        if 0 <= k < s.len() {
            assert(reduce(s, p)[k] == 0);
        } else {
            lemma_small_mod(0, p as nat);
        }
    }
    if mdeg(s, p) >= 0 {
        assert(reduce(s, p)[mdeg(s, p)] != 0);
    }
}

/// A sequence of canonical residues has its modular degree at the plain one.
pub proof fn lemma_mdeg_of_reduced(s: Seq<int>, p: int)
    requires
        p >= 2,
        forall|k: int| 0 <= k < s.len() ==> 0 <= #[trigger] s[k] < p,
    ensures
        mdeg(s, p) == poly_deg(s),
{
    assert forall|k: int| 0 <= k < s.len() implies reduce(s, p)[k] == s[k] by {
        lemma_small_mod(s[k] as nat, p as nat);
    }
    assert(reduce(s, p) =~= s);
}

/// A left factor all of whose residues vanish kills every convolution
/// residue.
pub proof fn lemma_conv_mod_left_zero(a: Seq<int>, b: Seq<int>, k: int, p: int, n: nat)
    requires
        p >= 2,
        forall|j: int| #[trigger] pcoef(a, j) % p == 0,
    ensures
        conv_partial(a, b, k, n) % p == 0,
    decreases n,
{
    lemma_small_mod(0, p as nat);
    if n > 0 {
        lemma_conv_mod_left_zero(a, b, k, p, (n - 1) as nat);
        let i = n - 1;
        let t = pcoef(a, i) * pcoef(b, k - i);
        assert(t % p == 0) by {
            lemma_mul_mod_noop(pcoef(a, i), pcoef(b, k - i), p);
            lemma_mul_by_zero_is_zero(pcoef(b, k - i) % p);
        }
        lemma_add_mod_noop(conv_partial(a, b, k, (n - 1) as nat), t, p);
    }
}

/// Each convolution residue above the two modular degrees vanishes.
pub proof fn lemma_conv_mod_above(a: Seq<int>, b: Seq<int>, k: int, p: int, n: nat)
    requires
        p >= 2,
        k > mdeg(a, p) + mdeg(b, p),
    ensures
        conv_partial(a, b, k, n) % p == 0,
    decreases n,
{
    lemma_small_mod(0, p as nat);
    if n > 0 {
        lemma_conv_mod_above(a, b, k, p, (n - 1) as nat);
        lemma_mdeg_bounds(a, p);
        lemma_mdeg_bounds(b, p);
        let i = n - 1;
        let t = pcoef(a, i) * pcoef(b, k - i);
        assert(t % p == 0) by {
            lemma_mul_mod_noop(pcoef(a, i), pcoef(b, k - i), p);
            if i > mdeg(a, p) {
                assert(pcoef(a, i) % p == 0);
                lemma_mul_by_zero_is_zero(pcoef(b, k - i) % p);
            } else {
                assert(k - i > mdeg(b, p));
                assert(pcoef(b, k - i) % p == 0);
                lemma_mul_by_zero_is_zero(pcoef(a, i) % p);
            }
        }
        lemma_add_mod_noop(conv_partial(a, b, k, (n - 1) as nat), t, p);
    }
}

/// The top convolution residue is the product of the leading residues.
pub proof fn lemma_conv_mod_top(a: Seq<int>, b: Seq<int>, p: int, n: nat)
    requires
        p >= 2,
        mdeg(a, p) >= 0,
        mdeg(b, p) >= 0,
    ensures
        conv_partial(a, b, mdeg(a, p) + mdeg(b, p), n) % p == (if n > mdeg(a, p) {
            (pcoef(a, mdeg(a, p)) * pcoef(b, mdeg(b, p))) % p
        } else {
            0
        }),
    decreases n,
{
    lemma_small_mod(0, p as nat);
    lemma_mdeg_bounds(a, p);
    lemma_mdeg_bounds(b, p);
    let da = mdeg(a, p);
    let db = mdeg(b, p);
    let k = da + db;
    if n > 0 {
        lemma_conv_mod_top(a, b, p, (n - 1) as nat);
        let i = n - 1;
        let s0 = conv_partial(a, b, k, (n - 1) as nat);
        let t = pcoef(a, i) * pcoef(b, k - i);
        lemma_add_mod_noop(s0, t, p);
        lemma_mod_twice(t, p);
        if i == da {
            assert(s0 % p == 0);
            assert((s0 + t) % p == (0 + t % p) % p);
        } else {
            assert(t % p == 0) by {
                lemma_mul_mod_noop(pcoef(a, i), pcoef(b, k - i), p);
                if i > da {
                    assert(pcoef(a, i) % p == 0);
                    lemma_mul_by_zero_is_zero(pcoef(b, k - i) % p);
                } else {
                    assert(k - i > db);
                    assert(pcoef(b, k - i) % p == 0);
                    lemma_mul_by_zero_is_zero(pcoef(a, i) % p);
                }
            }
            assert((s0 + t) % p == (s0 % p + 0) % p);
            lemma_mod_twice(s0, p);
        }
    }
}

/// The convolution is linear in its left factor: a pointwise difference of
/// rows convolves to the difference of the convolutions.
pub proof fn lemma_conv_diff(
    e: Seq<int>,
    q1: Seq<int>,
    q2: Seq<int>,
    d: Seq<int>,
    k: int,
    n: nat,
)
    requires
        forall|j: int| #[trigger] pcoef(e, j) == pcoef(q2, j) - pcoef(q1, j),
    ensures
        conv_partial(e, d, k, n) == conv_partial(q2, d, k, n) - conv_partial(q1, d, k, n),
    decreases n,
{
    if n > 0 {
        lemma_conv_diff(e, q1, q2, d, k, (n - 1) as nat);
        let i = n - 1;
        lemma_mul_is_distributive_sub_other_way(pcoef(d, k - i), pcoef(q2, i), pcoef(q1, i));
    }
}

/// Over a prime modulus the quotient of an exact division is unique: if the
/// Euclidean identity holds with a remainder of degree below the divisor's,
/// and some row also divides exactly, that remainder must vanish.
pub proof fn lemma_exact_division_unique(
    s: Seq<int>,
    d: Seq<int>,
    q1: Seq<int>,
    r: Seq<int>,
    q2: Seq<int>,
    p: int,
)
    requires
        is_prime(p),
        forall|k: int| 0 <= k < s.len() ==> 0 <= #[trigger] s[k] < p,
        forall|k: int| 0 <= k < d.len() ==> 0 <= #[trigger] d[k] < p,
        forall|k: int| 0 <= k < r.len() ==> 0 <= #[trigger] r[k] < p,
        poly_deg(d) >= 0,
        poly_deg(r) < poly_deg(d),
        divides_with(s, d, q1, r, p),
        divides_with(s, d, q2, Seq::<int>::empty(), p),
    ensures
        poly_deg(r) == -1,
{
    let dd = poly_deg(d);
    lemma_deg_bounds(d);
    lemma_deg_bounds(r);
    lemma_small_mod(0, p as nat);
    let el = if q1.len() >= q2.len() {
        q1.len()
    } else {
        q2.len()
    };
    let e = Seq::new(el, |j: int| pcoef(q2, j) - pcoef(q1, j));
    assert forall|j: int| #[trigger] pcoef(e, j) == pcoef(q2, j) - pcoef(q1, j) by {
        if 0 <= j < el {
        } else {
            assert(pcoef(q1, j) == 0 && pcoef(q2, j) == 0);
        }
    }
    // the difference row convolves to the remainder, residue by residue
    assert forall|k: int| #[trigger] (conv_at(e, d, k) % p) == pcoef(r, k) % p by {
        lemma_conv_partial_beyond(q1, d, k, el);
        lemma_conv_partial_beyond(q2, d, k, el);
        lemma_conv_diff(e, q1, q2, d, k, el);
        let c1 = conv_at(q1, d, k);
        let c2 = conv_at(q2, d, k);
        assert(conv_at(e, d, k) == c2 - c1);
        assert(pcoef(r, k) == pcoef(r, k));
        assert(pcoef(s, k) == (c1 + pcoef(r, k)) % p);
        assert(pcoef(Seq::<int>::empty(), k) == 0);
        assert(pcoef(s, k) == c2 % p);
        lemma_sub_mod_noop(c2, c1, p);
        lemma_sub_mod_noop(c1 + pcoef(r, k), c1, p);
        assert((c2 - c1) % p == ((c1 + pcoef(r, k)) % p - c1 % p) % p);
        assert(((c1 + pcoef(r, k)) % p - c1 % p) % p == (c1 + pcoef(r, k) - c1) % p);
        lemma_mod_twice(pcoef(r, k), p);
    }
    if poly_deg(r) >= 0 {
        let dr = poly_deg(r);
        assert(pcoef(r, dr) % p != 0) by {
            lemma_small_mod(r[dr] as nat, p as nat);
        }
        if mdeg(e, p) == -1 {
            lemma_mdeg_bounds(e, p);
            assert(forall|j: int| #[trigger] pcoef(e, j) % p == 0);
            lemma_conv_mod_left_zero(e, d, dr, p, e.len());
            assert(conv_at(e, d, dr) % p == pcoef(r, dr) % p);
            assert(pcoef(r, dr) % p == 0);
            assert(false);
        } else {
            let de = mdeg(e, p);
            lemma_mdeg_bounds(e, p);
            lemma_mdeg_of_reduced(d, p);
            lemma_conv_mod_top(e, d, p, e.len());
            assert(conv_at(e, d, de + dd) % p == (pcoef(e, de) * pcoef(d, dd)) % p);
            // the product of two nonzero residues is nonzero over a prime
            let x = pcoef(e, de) % p;
            let y = pcoef(d, dd);
            lemma_mod_bound(pcoef(e, de), p);
            lemma_small_mod(y as nat, p as nat);
            assert(x != 0);
            lemma_small_mod(x as nat, p as nat);
            assert(y % p == y);
            assert((pcoef(e, de) * y) % p != 0) by {
                lemma_mul_mod_noop(pcoef(e, de), y, p);
                assert((pcoef(e, de) * y) % p == (x * y) % p);
                if (x * y) % p == 0 {
                    crate::number_theory::lemma_euclid(x as nat, y as nat, p as nat);
                    assert(y % p == 0);
                    assert(false);
                }
            }
            // but the remainder vanishes that far up
            assert(pcoef(r, de + dd) == 0);
            assert(pcoef(r, de + dd) % p == 0);
            assert(false);
        }
    }
}

/// The synthetic-division coefficients of `q` by `x - x0` modulo `p`,
/// built from the top degree `d` downward.
pub open spec fn synth_at(q: Seq<int>, x0: int, p: int, d: int, k: int) -> int
    decreases d - k,
{
    if k >= d {
        0
    } else {
        (pcoef(q, k + 1) + x0 * synth_at(q, x0, p, d, k + 1)) % p
    }
}

/// Evaluation is subtractive: a sequence that is, coefficient by
/// coefficient, the plain difference of two others evaluates to the
/// reduced difference of their evaluations.
pub proof fn lemma_eval_matches_diff(a: Seq<int>, b: Seq<int>, e: Seq<int>, x: int, p: int)
    requires
        p >= 2,
        forall|k: int| #![trigger pcoef(e, k)] pcoef(e, k) == pcoef(a, k) - pcoef(b, k),
    ensures
        poly_eval(e, x, p) == (poly_eval(a, x, p) - poly_eval(b, x, p)) % p,
{
    let n0 = if a.len() >= b.len() {
        a.len()
    } else {
        b.len()
    };
    let n = if e.len() >= n0 {
        e.len()
    } else {
        n0
    };
    lemma_eval_pre_diff(a, b, e, x, p, n as nat);
    lemma_eval_pre_beyond(a, x, p, n as nat);
    lemma_eval_pre_beyond(b, x, p, n as nat);
    lemma_eval_pre_beyond(e, x, p, n as nat);
}

/// The prefix form of the subtractive evaluation law.
proof fn lemma_eval_pre_diff(a: Seq<int>, b: Seq<int>, e: Seq<int>, x: int, p: int, n: nat)
    requires
        p >= 2,
        forall|k: int| #![trigger pcoef(e, k)] pcoef(e, k) == pcoef(a, k) - pcoef(b, k),
    ensures
        eval_pre(e, x, p, n) == (eval_pre(a, x, p, n) - eval_pre(b, x, p, n)) % p,
    decreases n,
{
    if n == 0 {
        lemma_small_mod(0, p as nat);
    } else {
        lemma_eval_pre_diff(a, b, e, x, p, (n - 1) as nat);
        let ea = eval_pre(a, x, p, (n - 1) as nat);
        let eb = eval_pre(b, x, p, (n - 1) as nat);
        let ca = pcoef(a, n - 1);
        let cb = pcoef(b, n - 1);
        let w = pow(x, (n - 1) as nat);
        assert(pcoef(e, n - 1) == ca - cb);
        lemma_mul_is_distributive_sub_other_way(w, ca, cb);
        assert((ca - cb) * w == ca * w - cb * w);
        lemma_head_congruence(ea - eb, (ca - cb) * w, p);
        assert(eval_pre(e, x, p, n) == (ea - eb + (ca * w - cb * w)) % p);
        lemma_sub_mod_noop(ea + ca * w, eb + cb * w, p);
        assert(((ea + ca * w) % p - (eb + cb * w) % p) % p == (ea + ca * w - (eb + cb * w)) % p);
    }
}

/// Splits off one root: a sequence with a nonzero residue degree that
/// vanishes at `x0` factors, at every point, into `x - x0` times a
/// synthetic quotient of strictly smaller residue degree.
pub proof fn lemma_factor_at_root(q: Seq<int>, x0: int, p: int) -> (ss: Seq<int>)
    requires
        p >= 2,
        0 <= x0 < p,
        mdeg(q, p) >= 1,
        poly_eval(q, x0, p) == 0,
    ensures
        0 <= mdeg(ss, p) < mdeg(q, p),
        forall|x: int|
            poly_eval(q, x, p) == (f_sub(x, x0, p) * #[trigger] poly_eval(ss, x, p)) % p,
{
    let d = mdeg(q, p);
    lemma_mdeg_bounds(q, p);
    lemma_small_mod(0, p as nat);
    let ss = Seq::new(d as nat, |k: int| synth_at(q, x0, p, d, k));
    let ff = seq![f_neg(x0, p), 1int];
    let cl = q.len() + d + 2;
    let cc = Seq::new(cl as nat, |k: int| conv_at(ff, ss, k) % p);
    lemma_deg_bounds(ff);
    assert(ff[1] == 1);
    // the convolution of the factor with the synthetic row, slot by slot
    assert forall|k: int| true implies #[trigger] conv_at(ff, ss, k) == f_neg(x0, p) * pcoef(
        ss,
        k,
    ) + pcoef(ss, k - 1) by {
        assert(conv_at(ff, ss, k) == conv_partial(ff, ss, k, 2));
        assert(conv_partial(ff, ss, k, 0) == 0);
        assert(conv_partial(ff, ss, k, 1) == pcoef(ff, 0) * pcoef(ss, k));
        assert(conv_partial(ff, ss, k, 2) == conv_partial(ff, ss, k, 1) + pcoef(ff, 1) * pcoef(
            ss,
            k - 1,
        ));
        lemma_mul_basics(pcoef(ss, k - 1));
    }
    // above index zero the convolution residue is the coefficient residue
    assert forall|k: int| k >= 1 implies #[trigger] conv_at(ff, ss, k) % p == pcoef(q, k)
        % p by {
        if k < d {
            assert(pcoef(ss, k - 1) == (pcoef(q, k) + x0 * pcoef(ss, k)) % p);
            lemma_head_congruence(pcoef(q, k) + x0 * pcoef(ss, k), (p - x0) * pcoef(ss, k), p);
            assert(f_neg(x0, p) * pcoef(ss, k) + pcoef(ss, k - 1) == ((p - x0) % p) * pcoef(
                ss,
                k,
            ) + pcoef(ss, k - 1));
            assert((((p - x0) % p) * pcoef(ss, k) + pcoef(ss, k - 1)) % p == ((p - x0) * pcoef(
                ss,
                k,
            ) + pcoef(ss, k - 1)) % p) by {
                lemma_scaled_congruence(pcoef(ss, k - 1), p - x0, pcoef(ss, k), p);
            }
            assert(pcoef(q, k) + x0 * pcoef(ss, k) + (p - x0) * pcoef(ss, k) == pcoef(q, k) + p
                * pcoef(ss, k)) by (nonlinear_arith);
            lemma_mod_multiples_vanish(pcoef(ss, k), pcoef(q, k), p);
        } else if k == d {
            assert(pcoef(ss, k) == 0);
            lemma_mul_by_zero_is_zero(f_neg(x0, p));
            assert(synth_at(q, x0, p, d, d) == 0);
            assert(pcoef(ss, d - 1) == (pcoef(q, d) + x0 * synth_at(q, x0, p, d, d)) % p);
            lemma_mul_by_zero_is_zero(x0);
            assert(conv_at(ff, ss, d) == pcoef(q, d) % p);
            lemma_mod_twice(pcoef(q, d), p);
        } else {
            assert(pcoef(ss, k) == 0 && pcoef(ss, k - 1) == 0);
            lemma_mul_by_zero_is_zero(f_neg(x0, p));
            assert(conv_at(ff, ss, k) == 0);
            assert(pcoef(q, k) % p == 0);
        }
    }
    // the linear factor's value at any point
    assert forall|x: int| true implies #[trigger] poly_eval(ff, x, p) == f_sub(x, x0, p) by {
        lemma_eval_deg1(ff, x, p);
        lemma_mul_basics(x);
        lemma_head_congruence(p - x0, x, p);
        assert(poly_eval(ff, x, p) == ((p - x0) % p + x) % p);
    }
    // the product's evaluations factor
    assert forall|x: int| true implies #[trigger] poly_eval(cc, x, p) == (f_sub(x, x0, p)
        * poly_eval(ss, x, p)) % p by {
        assert forall|k: int| #![trigger pcoef(cc, k)] pcoef(cc, k) == conv_at(ff, ss, k)
            % p by {
            if !(0 <= k < cl) {
                assert(pcoef(ss, k) == 0 && pcoef(ss, k - 1) == 0);
                lemma_mul_by_zero_is_zero(f_neg(x0, p));
                assert(conv_at(ff, ss, k) == 0);
            }
        }
        lemma_eval_matches_conv(ff, ss, cc, x, p);
    }
    // the remainder of the division is the value at the root: zero
    let delta = pcoef(q, 0) - conv_at(ff, ss, 0);
    let dseq = seq![delta];
    assert forall|k: int| 0 <= k < cl implies pcoef(q, k) % p == (pcoef(cc, k) + pcoef(
        dseq,
        k,
    )) % p by {
        if k == 0 {
            lemma_head_congruence(conv_at(ff, ss, 0), delta, p);
            lemma_mod_twice(pcoef(q, 0), p);
        } else {
            lemma_mod_twice(conv_at(ff, ss, k), p);
        }
    }
    lemma_eval_add(q, cc, dseq, x0, p, cl as nat);
    lemma_eval_pre_beyond(q, x0, p, cl as nat);
    lemma_eval_pre_beyond(cc, x0, p, cl as nat);
    lemma_eval_pre_beyond(dseq, x0, p, cl as nat);
    assert(f_sub(x0, x0, p) == 0) by {
        lemma_sub_zero_iff(x0, x0, p);
    }
    lemma_mul_by_zero_is_zero(poly_eval(ss, x0, p));
    assert(poly_eval(cc, x0, p) == 0);
    assert(poly_eval(dseq, x0, p) == delta % p) by {
        let dr = seq![delta % p];
        lemma_mod_bound(delta, p);
        lemma_mod_twice(delta, p);
        assert(forall|k: int| 0 <= k < 1 ==> pcoef(dseq, k) % p == #[trigger] pcoef(dr, k) % p);
        lemma_eval_pre_congruent(dseq, dr, x0, p, 1);
        lemma_eval_const(dr, x0, p);
    }
    assert(poly_eval(q, x0, p) == (0 + delta % p) % p);
    lemma_mod_twice(delta, p);
    assert(delta % p == 0);
    // with a vanishing remainder the whole sequence factors
    assert forall|x: int| true implies poly_eval(q, x, p) == (f_sub(x, x0, p)
        * #[trigger] poly_eval(ss, x, p)) % p by {
        assert forall|k: int| 0 <= k < cl implies pcoef(q, k) % p == pcoef(cc, k) % p by {
            if k == 0 {
                lemma_sub_mod_noop(pcoef(q, 0), conv_at(ff, ss, 0), p);
                assert((pcoef(q, 0) % p - conv_at(ff, ss, 0) % p) % p == 0);
                lemma_mod_bound(pcoef(q, 0), p);
                lemma_mod_bound(conv_at(ff, ss, 0), p);
                let u = pcoef(q, 0) % p;
                let v = conv_at(ff, ss, 0) % p;
                if u != v {
                    if u > v {
                        lemma_small_mod((u - v) as nat, p as nat);
                    } else {
                        lemma_fundamental_div_mod_converse_mod(u - v, p, -1, u - v + p);
                    }
                    assert(false);
                }
                lemma_mod_twice(conv_at(ff, ss, 0), p);
            } else {
                lemma_mod_twice(conv_at(ff, ss, k), p);
            }
        }
        lemma_eval_pre_congruent(q, cc, x, p, cl as nat);
        lemma_eval_pre_beyond(q, x, p, cl as nat);
        lemma_eval_pre_beyond(cc, x, p, cl as nat);
    }
    // the synthetic row keeps a nonzero top residue
    assert(pcoef(ss, d - 1) % p != 0) by {
        lemma_mul_by_zero_is_zero(x0);
        assert(synth_at(q, x0, p, d, d) == 0);
        assert(pcoef(ss, d - 1) == (pcoef(q, d) + x0 * synth_at(q, x0, p, d, d)) % p);
        assert(pcoef(ss, d - 1) == pcoef(q, d) % p);
        lemma_mod_twice(pcoef(q, d), p);
    }
    assert(mdeg(ss, p) >= 0) by {
        lemma_mdeg_bounds(ss, p);
        if mdeg(ss, p) == -1 {
            assert(pcoef(ss, d - 1) % p == 0);
            assert(false);
        }
    }
    lemma_mdeg_bounds(ss, p);
    ss
}

/// A sequence whose residues are not all zero cannot vanish at more
/// distinct points than its modular degree: the root bound.
pub proof fn lemma_root_count(q: Seq<int>, pts: Seq<int>, p: int)
    requires
        is_prime(p),
        mdeg(q, p) >= 0,
        forall|i: int| 0 <= i < pts.len() ==> 0 <= #[trigger] pts[i] < p,
        forall|i: int, j: int|
            0 <= i < pts.len() && 0 <= j < pts.len() && i != j ==> #[trigger] pts[i]
                != #[trigger] pts[j],
        forall|i: int| 0 <= i < pts.len() ==> poly_eval(q, #[trigger] pts[i], p) == 0,
    ensures
        mdeg(q, p) >= pts.len(),
    decreases pts.len(),
{
    lemma_mdeg_bounds(q, p);
    lemma_small_mod(0, p as nat);
    if pts.len() == 0 {
    } else {
        let d = mdeg(q, p);
        if d == 0 {
            // a nonzero constant vanishes nowhere
            let c0 = seq![pcoef(q, 0) % p];
            let x = pts[0];
            assert forall|k: int| 0 <= k < q.len() implies pcoef(q, k) % p == pcoef(c0, k)
                % p by {
                if k == 0 {
                    lemma_mod_twice(pcoef(q, 0), p);
                } else {
                    assert(pcoef(q, k) % p == 0);
                }
            }
            lemma_eval_pre_congruent(q, c0, x, p, q.len() as nat);
            lemma_eval_pre_beyond(c0, x, p, q.len() as nat);
            lemma_mod_bound(pcoef(q, 0), p);
            lemma_eval_const(c0, x, p);
            assert(poly_eval(q, x, p) == pcoef(q, 0) % p);
            assert(false);
        } else {
            let x0 = pts.last();
            let rest = pts.drop_last();
            let ss = lemma_factor_at_root(q, x0, p);
            // the quotient vanishes at every remaining point
            assert forall|i: int| 0 <= i < rest.len() implies poly_eval(
                ss,
                #[trigger] rest[i],
                p,
            ) == 0 by {
                let xi = rest[i];
                assert(xi == pts[i]);
                assert(poly_eval(q, xi, p) == 0);
                assert(poly_eval(q, xi, p) == (f_sub(xi, x0, p) * poly_eval(ss, xi, p)) % p);
                let av = f_sub(xi, x0, p);
                let bv = poly_eval(ss, xi, p);
                assert(av != 0) by {
                    lemma_sub_zero_iff(xi, x0, p);
                    assert(xi != pts[pts.len() - 1]);
                }
                lemma_mod_bound(p + xi - x0, p);
                lemma_eval_pre_bound(ss, xi, p, ss.len());
                if bv != 0 {
                    lemma_small_mod(av as nat, p as nat);
                    lemma_small_mod(bv as nat, p as nat);
                    crate::number_theory::lemma_euclid(av as nat, bv as nat, p as nat);
                    assert(false);
                }
            }
            lemma_root_count(ss, rest, p);
            assert(mdeg(ss, p) < d);
            assert(d >= rest.len() + 1);
        }
    }
}

/// Two coefficient sequences agree modulo `p`, slot by slot.
pub open spec fn pequiv(a: Seq<int>, b: Seq<int>, p: int) -> bool {
    forall|k: int| #![trigger pcoef(a, k)] #![trigger pcoef(b, k)] pcoef(a, k) % p == pcoef(b, k)
        % p
}

/// Summands past the left factor's length contribute nothing.
pub proof fn lemma_conv_partial_beyond(a: Seq<int>, b: Seq<int>, k: int, n: nat)
    requires
        n >= a.len(),
    ensures
        conv_partial(a, b, k, n) == conv_at(a, b, k),
    decreases n,
{
    if n > a.len() {
        lemma_conv_partial_beyond(a, b, k, (n - 1) as nat);
        assert(pcoef(a, n - 1) == 0);
        lemma_mul_by_zero_is_zero(pcoef(b, k - (n - 1)));
    }
}

/// Convolution respects slotwise congruence of its factors.
pub proof fn lemma_conv_congruent(
    a1: Seq<int>,
    b1: Seq<int>,
    a2: Seq<int>,
    b2: Seq<int>,
    k: int,
    p: int,
    n: nat,
)
    requires
        p >= 2,
        pequiv(a1, a2, p),
        pequiv(b1, b2, p),
    ensures
        conv_partial(a1, b1, k, n) % p == conv_partial(a2, b2, k, n) % p,
    decreases n,
{
    if n > 0 {
        lemma_conv_congruent(a1, b1, a2, b2, k, p, (n - 1) as nat);
        let s1 = conv_partial(a1, b1, k, (n - 1) as nat);
        let s2 = conv_partial(a2, b2, k, (n - 1) as nat);
        let t1 = pcoef(a1, n - 1) * pcoef(b1, k - (n - 1));
        let t2 = pcoef(a2, n - 1) * pcoef(b2, k - (n - 1));
        assert(t1 % p == t2 % p) by {
            lemma_mul_mod_noop(pcoef(a1, n - 1), pcoef(b1, k - (n - 1)), p);
            lemma_mul_mod_noop(pcoef(a2, n - 1), pcoef(b2, k - (n - 1)), p);
        }
        lemma_add_mod_noop(s1, t1, p);
        lemma_add_mod_noop(s2, t2, p);
        assert((s1 + t1) % p == (s1 % p + t1 % p) % p);
        assert((s2 + t2) % p == (s2 % p + t2 % p) % p);
    }
}

/// The whole convolutions of slotwise-congruent factors are congruent.
pub proof fn lemma_conv_at_congruent(
    a1: Seq<int>,
    b1: Seq<int>,
    a2: Seq<int>,
    b2: Seq<int>,
    k: int,
    p: int,
)
    requires
        p >= 2,
        pequiv(a1, a2, p),
        pequiv(b1, b2, p),
    ensures
        conv_at(a1, b1, k) % p == conv_at(a2, b2, k) % p,
{
    let n = if a1.len() >= a2.len() {
        a1.len()
    } else {
        a2.len()
    };
    lemma_conv_partial_beyond(a1, b1, k, n);
    lemma_conv_partial_beyond(a2, b2, k, n);
    lemma_conv_congruent(a1, b1, a2, b2, k, p, n);
}

/// Square-and-multiply over the exponent's bits, from the most significant
/// down: the specification shape of a polynomial power.
pub open spec fn ppow(base: Seq<int>, e: nat, p: int) -> Seq<int>
    decreases e,
{
    if e == 0 {
        seq![1int]
    } else if e % 2 == 1 {
        conv_seq(conv_seq(ppow(base, e / 2, p), ppow(base, e / 2, p), p), base, p)
    } else {
        conv_seq(ppow(base, e / 2, p), ppow(base, e / 2, p), p)
    }
}

/// A line (or a constant) through every one of the given points.
pub open spec fn line_through(s: Seq<int>, pts: Seq<(FieldElement, FieldElement)>, p: int) -> bool {
    &&& poly_deg(s) <= 1
    &&& forall|i: int|
        0 <= i < pts.len() ==> poly_eval(s, (#[trigger] pts[i]).0.value as int, p)
            == pts[i].1.value as int
}

impl Polynomial {
    /// The remainder of the Euclidean division.
    #[verifier::spinoff_prover]
    pub fn modulo(&self, other: &Polynomial) -> (res: Result<Polynomial, PolynomialError>)
        requires
            self.compat(*other),
            self.coefficients@.len() + other.coefficients@.len() <= i32::MAX,
        ensures
            res is Err <==> poly_deg(other.vals()) == -1,
            res is Err ==> (res matches Err(e) && e == PolynomialError::ZeroDivisor),
            res matches Ok(r) ==> {
                &&& forall|f: Field| self.over(f) && other.over(f) ==> r.over(f)
                &&& r.coefficients@.len() <= self.coefficients@.len()
                    + other.coefficients@.len()
                &&& is_prime(self.joint_modulus(*other)) ==> poly_deg(r.vals()) < poly_deg(
                    other.vals(),
                )
                &&& is_prime(self.joint_modulus(*other)) ==> exists|qs: Seq<int>|
                    #[trigger] divides_with(
                        self.vals(),
                        other.vals(),
                        qs,
                        r.vals(),
                        self.joint_modulus(*other),
                    )
            },
    {
        match self.divide(other) {
            Err(e) => Err(e),
            Ok((q, r)) => {
                proof {
                    if is_prime(self.joint_modulus(*other)) {
                        assert(divides_with(
                            self.vals(),
                            other.vals(),
                            q.vals(),
                            r.vals(),
                            self.joint_modulus(*other),
                        ));
                    }
                }
                Ok(r)
            },
        }
    }

    /// Exact division: the quotient alone, and an error when the division
    /// leaves a remainder or the divisor is the zero polynomial.
    pub fn truediv(&self, other: &Polynomial) -> (res: Result<Polynomial, PolynomialError>)
        requires
            self.compat(*other),
            self.coefficients@.len() + other.coefficients@.len() <= i32::MAX,
        ensures
            poly_deg(other.vals()) == -1 <==> (res matches Err(e) && e
                == PolynomialError::ZeroDivisor),
            res is Err ==> (res matches Err(e) && (e == PolynomialError::ZeroDivisor || e
                == PolynomialError::NonZeroRemainder)),
            is_prime(self.joint_modulus(*other)) ==> (res is Ok <==> (poly_deg(other.vals())
                != -1 && exists|qs: Seq<int>|
                #[trigger] divides_with(
                    self.vals(),
                    other.vals(),
                    qs,
                    Seq::<int>::empty(),
                    self.joint_modulus(*other),
                ))),
            res matches Ok(q) ==> {
                &&& forall|f: Field| self.over(f) && other.over(f) ==> q.over(f)
                &&& q.coefficients@.len() <= self.coefficients@.len()
                &&& is_prime(self.joint_modulus(*other)) ==> forall|k: int|
                    #![trigger conv_at(q.vals(), other.vals(), k)]
                    pcoef(self.vals(), k) == conv_at(q.vals(), other.vals(), k)
                        % self.joint_modulus(*other)
            },
    {
        let ghost sv = self.vals();
        let ghost dv = other.vals();
        let ghost pm = self.joint_modulus(*other);
        match self.divide(other) {
            Err(e) => Err(e),
            Ok((q, r)) => {
                let rz = r.is_zero();
                proof {
                    if is_prime(pm) {
                        lemma_deg_bounds(dv);
                        lemma_deg_bounds(r.vals());
                        let f0 = other.coefficients@[0].field;
                        assert(self.over(f0));
                        assert(other.over(f0));
                        assert(q.over(f0) && r.over(f0));
                        assert forall|k: int| 0 <= k < sv.len() implies 0 <= #[trigger] sv[k]
                            < pm by {
                            assert(self.coefficients@[k].wf());
                        }
                        assert forall|k: int| 0 <= k < dv.len() implies 0 <= #[trigger] dv[k]
                            < pm by {
                            assert(other.coefficients@[k].wf());
                        }
                        assert forall|k: int|
                            0 <= k < r.vals().len() implies 0 <= #[trigger] r.vals()[k]
                            < pm by {
                            assert(r.coefficients@[k].wf() && r.coefficients@[k].field == f0);
                        }
                        assert(divides_with(sv, dv, q.vals(), r.vals(), pm));
                        if !rz {
                            // a nonzero remainder rules every exact witness out
                            assert(!(exists|qs: Seq<int>|
                                #[trigger] divides_with(
                                    sv,
                                    dv,
                                    qs,
                                    Seq::<int>::empty(),
                                    pm,
                                ))) by {
                                if exists|qs: Seq<int>|
                                    #[trigger] divides_with(
                                        sv,
                                        dv,
                                        qs,
                                        Seq::<int>::empty(),
                                        pm,
                                    ) {
                                    let q2 = choose|qs: Seq<int>|
                                        #[trigger] divides_with(
                                            sv,
                                            dv,
                                            qs,
                                            Seq::<int>::empty(),
                                            pm,
                                        );
                                    lemma_exact_division_unique(
                                        sv,
                                        dv,
                                        q.vals(),
                                        r.vals(),
                                        q2,
                                        pm,
                                    );
                                    assert(false);
                                }
                            }
                        } else {
                            // the computed quotient is an exact witness
                            assert forall|k: int|
                                #![trigger pcoef(Seq::<int>::empty(), k)]
                                pcoef(sv, k) == (conv_at(q.vals(), dv, k) + pcoef(
                                    Seq::<int>::empty(),
                                    k,
                                )) % pm by {
                                assert(pcoef(r.vals(), k) == 0);
                                assert(pcoef(sv, k) == (conv_at(q.vals(), dv, k) + pcoef(
                                    r.vals(),
                                    k,
                                )) % pm);
                            }
                            assert(divides_with(sv, dv, q.vals(), Seq::<int>::empty(), pm));
                        }
                    }
                }
                if !rz {
                    return Err(PolynomialError::NonZeroRemainder);
                }
                proof {
                    if is_prime(pm) {
                        lemma_deg_bounds(r.vals());
                        assert forall|k: int|
                            #![trigger conv_at(q.vals(), other.vals(), k)]
                            pcoef(self.vals(), k) == conv_at(q.vals(), other.vals(), k)
                                % pm by {
                            assert(pcoef(r.vals(), k) == 0);
                        }
                    }
                }
                Ok(q)
            },
        }
    }

    /// Replaces each coefficient by itself times the matching power of the
    /// factor: the composition of this polynomial with `factor * x`.
    pub fn scale(&self, factor: &FieldElement) -> (r: Polynomial)
        requires
            self.wf(),
            factor.wf(),
            self.coefficients@.len() > 0 ==> self.coefficients@[0].field == factor.field,
        ensures
            r.coefficients@.len() == self.coefficients@.len(),
            r.over(factor.field),
            forall|i: int|
                0 <= i < r.vals().len() ==> r.vals()[i] == (pow(factor.value as int, i as nat)
                    * self.vals()[i]) % (factor.field.p as int),
    {
        let field = factor.field;
        let ghost pp = field.p as int;
        let mut xi = field.one();
        let mut out: Vec<FieldElement> = Vec::new();
        let n = self.coefficients.len();
        proof {
            lemma_pow0(factor.value as int);
            lemma_small_mod(1, field.p as nat);
        }
        let mut i: usize = 0;
        while i < n
            invariant
                i <= n,
                n == self.coefficients@.len(),
                self.wf(),
                n > 0 ==> self.coefficients@[0].field == field,
                field == factor.field,
                field.wf(),
                factor.wf(),
                pp == field.p as int,
                xi.wf(),
                xi.field == field,
                xi.value as int == pow(factor.value as int, i as nat) % pp,
                out@.len() == i,
                forall|j: int|
                    0 <= j < i ==> (#[trigger] out@[j]).wf() && out@[j].field == field,
                forall|j: int|
                    0 <= j < i ==> out@[j].value as int == (pow(factor.value as int, j as nat)
                        * self.vals()[j]) % pp,
            decreases n - i,
        {
            let c = self.coefficients[i];
            proof {
                assert(c.wf() && c.field == field);
            }
            let scaled = field.multiply(&xi, &c);
            proof {
                lemma_mul_mod_noop_left(pow(factor.value as int, i as nat), c.value as int, pp);
            }
            out.push(scaled);
            xi = field.multiply(&xi, factor);
            proof {
                lemma_mul_mod_noop_left(pow(factor.value as int, i as nat), factor.value as int, pp);
                lemma_pow_adds(factor.value as int, i as nat, 1);
                lemma_pow1(factor.value as int);
            }
            i = i + 1;
        }
        Polynomial { coefficients: out }
    }

    /// One square-and-multiply round of the polynomial power, from the top
    /// bit of the exponent down.
    fn pow_rec(&self, e: u128) -> (r: Polynomial)
        requires
            self.wf(),
            self.coefficients@.len() <= i32::MAX,
            self.coefficients@.len() > 0,
            self.coefficients@[0].field.wf(),
            poly_deg(self.vals()) >= 0,
            (poly_deg(self.vals()) + 1) * (e as int + 1) + 2 <= i32::MAX,
        ensures
            r.over(self.coefficients@[0].field),
            poly_deg(r.vals()) <= poly_deg(self.vals()) * e,
            r.coefficients@.len() <= poly_deg(self.vals()) * e + 2,
            e == 0 ==> r.coefficients@.len() == 1 && r.coefficients@[0].value == 1,
            pequiv(r.vals(), ppow(self.vals(), e as nat, self.modulus()), self.modulus()),
        decreases e,
    {
        let field = self.coefficients[0].field;
        let ghost pp = self.modulus();
        let ghost sv = self.vals();
        let ghost dd = poly_deg(sv);
        proof {
            lemma_deg_bounds(sv);
        }
        if e == 0 {
            let mut out: Vec<FieldElement> = Vec::new();
            out.push(field.one());
            let r = Polynomial { coefficients: out };
            proof {
                assert(r.vals() =~= seq![1int]);
                lemma_deg_from_pcoef(r.vals(), 0);
                lemma_mul_by_zero_is_zero(dd);
            }
            r
        } else {
            let ghost eh = (e / 2) as int;
            proof {
                assert(dd * eh >= 0) by (nonlinear_arith)
                    requires
                        dd >= 0,
                        eh >= 0,
                ;
                assert((dd + 1) * (eh + 1) + 2 <= (dd + 1) * (e as int + 1) + 2)
                    by (nonlinear_arith)
                    requires
                        dd >= 0,
                        0 <= eh <= e as int,
                ;
            }
            let h = self.pow_rec(e / 2);
            let ghost hv = h.vals();
            let ghost hp = ppow(sv, (e / 2) as nat, pp);
            proof {
                assert(h.coefficients@.len() <= i32::MAX) by (nonlinear_arith)
                    requires
                        h.coefficients@.len() <= dd * eh + 2,
                        dd >= 0,
                        0 <= eh <= e as int,
                        (dd + 1) * (e as int + 1) + 2 <= i32::MAX,
                ;
                assert(h.compat(h));
                assert(h.joint_modulus(h) == pp || h.coefficients@.len() == 0);
            }
            let hh = h.mul(&h);
            let ghost hhv = hh.vals();
            let ghost hhp = conv_seq(hp, hp, pp);
            proof {
                lemma_deg_bounds(hv);
                // squaring the computed half power matches squaring its specification
                assert forall|k: int| #![trigger pcoef(hhv, k)] #![trigger pcoef(hhp, k)]
                    pcoef(hhv, k) % pp == pcoef(hhp, k) % pp by {
                    if h.coefficients@.len() == 0 {
                        assert(hv.len() == 0);
                        lemma_deg_none(hv);
                        assert(hh.coefficients@.len() == 0);
                        assert(conv_at(hv, hv, k) == 0);
                        lemma_small_mod(0, pp as nat);
                        assert(pcoef(hhv, k) == conv_at(hv, hv, k) % pp);
                    } else {
                        assert(h.joint_modulus(h) == pp);
                        assert(pcoef(hhv, k) == conv_at(hv, hv, k) % pp);
                    }
                    lemma_conv_at_congruent(hv, hv, hp, hp, k, pp);
                    lemma_mod_twice(conv_at(hv, hv, k), pp);
                    lemma_mod_twice(conv_at(hp, hp, k), pp);
                    if 0 <= k < hhp.len() {
                    } else {
                        lemma_deg_bounds(hp);
                        lemma_conv_outside(hp, hp, k, hp.len());
                        lemma_small_mod(0, pp as nat);
                        assert(pcoef(hhp, k) == 0);
                    }
                }
                // and its degree is at most twice the half power's
                assert forall|k: int| k > 2 * (dd * eh) implies #[trigger] pcoef(hhv, k)
                    == 0 by {
                    lemma_conv_outside(hv, hv, k, hv.len());
                    lemma_small_mod(0, pp as nat);
                }
                assert(2 * (dd * eh) >= -1) by (nonlinear_arith)
                    requires
                        dd >= 0,
                        eh >= 0,
                ;
                lemma_deg_le_from_pcoef(hhv, 2 * (dd * eh));
            }
            if e % 2 == 1 {
                proof {
                    assert(hh.coefficients@.len() <= 2 * (dd * eh) + 4);
                    assert(2 * (dd * eh) + 4 <= i32::MAX && dd * e as int >= 2 * (dd * eh))
                        by (nonlinear_arith)
                        requires
                            dd >= 0,
                            eh >= 0,
                            e as int == 2 * eh + 1,
                            (dd + 1) * (e as int + 1) + 2 <= i32::MAX,
                    ;
                    assert(hh.compat(*self));
                }
                let r = hh.mul(self);
                proof {
                    let rv = r.vals();
                    let rp = conv_seq(hhp, sv, pp);
                    assert(ppow(sv, e as nat, pp) == rp);
                    assert forall|k: int| #![trigger pcoef(rv, k)] #![trigger pcoef(rp, k)]
                        pcoef(rv, k) % pp == pcoef(rp, k) % pp by {
                        if hh.coefficients@.len() == 0 {
                            assert(hhv.len() == 0);
                            lemma_deg_none(hhv);
                            assert(r.coefficients@.len() == 0);
                            assert(conv_at(hhv, sv, k) == 0);
                            lemma_small_mod(0, pp as nat);
                            assert(pcoef(rv, k) == conv_at(hhv, sv, k) % pp);
                        } else {
                            assert(hh.joint_modulus(*self) == pp);
                            assert(pcoef(rv, k) == conv_at(hhv, sv, k) % pp);
                        }
                        lemma_conv_at_congruent(hhv, sv, hhp, sv, k, pp);
                        lemma_mod_twice(conv_at(hhv, sv, k), pp);
                        lemma_mod_twice(conv_at(hhp, sv, k), pp);
                        if 0 <= k < rp.len() {
                        } else {
                            lemma_deg_bounds(hhp);
                            lemma_deg_bounds(sv);
                            lemma_conv_outside(hhp, sv, k, hhp.len());
                            lemma_small_mod(0, pp as nat);
                            assert(pcoef(rp, k) == 0);
                        }
                    }
                    assert forall|k: int| k > dd * e as int implies #[trigger] pcoef(rv, k)
                        == 0 by {
                        lemma_deg_bounds(hhv);
                        assert(k > poly_deg(hhv) + poly_deg(sv)) by (nonlinear_arith)
                            requires
                                k > dd * e as int,
                                e as int == 2 * eh + 1,
                                poly_deg(hhv) <= 2 * (dd * eh),
                                poly_deg(sv) == dd,
                                dd >= 0,
                        ;
                        lemma_conv_outside(hhv, sv, k, hhv.len());
                        lemma_small_mod(0, pp as nat);
                    }
                    assert(dd * e as int >= -1) by (nonlinear_arith)
                        requires
                            dd >= 0,
                    ;
                    lemma_deg_le_from_pcoef(rv, dd * e as int);
                    lemma_deg_bounds(hhv);
                    assert(poly_deg(hhv) + dd + 2 <= dd * e as int + 2) by (nonlinear_arith)
                        requires
                            poly_deg(hhv) <= 2 * (dd * eh),
                            e as int == 2 * eh + 1,
                            dd >= 0,
                            eh >= 0,
                    ;
                    assert(r.coefficients@.len() <= dd * e as int + 2);
                }
                r
            } else {
                proof {
                    assert(2 * (dd * eh) == dd * e as int) by (nonlinear_arith)
                        requires
                            e as int == 2 * eh,
                    ;
                    assert(ppow(sv, e as nat, pp) == hhp);
                }
                hh
            }
        }
    }

    /// Raises this polynomial to the power given by a field element's
    /// value, by square-and-multiply.  The zero polynomial gives the zero
    /// polynomial for every exponent, zero included.
    pub fn xor(&self, exponent: FieldElement) -> (r: Polynomial)
        requires
            self.wf(),
            self.coefficients@.len() <= i32::MAX,
            self.coefficients@.len() > 0 ==> self.coefficients@[0].field.wf(),
            (poly_deg(self.vals()) + 1) * (exponent.value as int + 1) + 2 <= i32::MAX,
        ensures
            poly_deg(self.vals()) == -1 ==> r.coefficients@.len() == 0,
            poly_deg(self.vals()) >= 0 && exponent.value == 0 ==> r.coefficients@.len() == 1
                && r.coefficients@[0].value == 1,
            poly_deg(self.vals()) >= 0 ==> {
                &&& r.over(self.coefficients@[0].field)
                &&& pequiv(
                    r.vals(),
                    ppow(self.vals(), exponent.value as nat, self.modulus()),
                    self.modulus(),
                )
            },
    {
        if self.is_zero() {
            return Polynomial { coefficients: Vec::new() };
        }
        proof {
            lemma_deg_bounds(self.vals());
        }
        self.pow_rec(exponent.value)
    }

    /// Whether the given points lie on one polynomial of degree at most
    /// one.  The x-values must be pairwise distinct; a duplicate, or an
    /// empty list, is reported as an interpolation error.  Over a prime
    /// modulus the answer is true exactly when a line through all the
    /// points exists.
    pub fn test_colinearity(points: &Vec<(FieldElement, FieldElement)>) -> (res: Result<
        bool,
        PolynomialError,
    >)
        requires
            points@.len() + 4 <= i32::MAX,
            forall|i: int|
                0 <= i < points@.len() ==> (#[trigger] points@[i]).0.wf() && points@[i].1.wf()
                    && points@[i].0.field == points@[0].0.field && points@[i].1.field
                    == points@[0].0.field,
        ensures
            points@.len() == 0 <==> (res matches Err(e) && e == PolynomialError::EmptyDomain),
            points@.len() > 0 ==> (res is Ok <==> distinct_vals(
                points@.map_values(|pt: (FieldElement, FieldElement)| pt.0),
            )),
            res matches Ok(b) ==> (is_prime(points@[0].0.field.p as int) ==> (b <==> exists|s:
                Seq<int>| #[trigger] line_through(s, points@, points@[0].0.field.p as int))),
    {
        let n = points.len();
        let mut domain: Vec<FieldElement> = Vec::new();
        let mut values: Vec<FieldElement> = Vec::new();
        let mut i: usize = 0;
        while i < n
            invariant
                i <= n,
                n == points@.len(),
                forall|t: int|
                    0 <= t < n ==> (#[trigger] points@[t]).0.wf() && points@[t].1.wf()
                        && points@[t].0.field == points@[0].0.field && points@[t].1.field
                        == points@[0].0.field,
                domain@.len() == i,
                values@.len() == i,
                forall|t: int| 0 <= t < i ==> (#[trigger] domain@[t]) == points@[t].0,
                forall|t: int| 0 <= t < i ==> (#[trigger] values@[t]) == points@[t].1,
            decreases n - i,
        {
            domain.push(points[i].0);
            values.push(points[i].1);
            i = i + 1;
        }
        if n == 0 {
            return Err(PolynomialError::EmptyDomain);
        }
        proof {
            let dm = points@.map_values(|pt: (FieldElement, FieldElement)| pt.0);
            assert(domain@ =~= dm);
        }
        match Polynomial::interpolate_domain(&domain, &values) {
            Err(e) => {
                proof {
                    assert(domain@.len() == values@.len());
                    assert(domain@.len() > 0);
                    assert(e != PolynomialError::LengthMismatch);
                    assert(e != PolynomialError::EmptyDomain);
                    assert(e == PolynomialError::DuplicatePoint);
                    assert(!distinct_vals(domain@));
                }
                Err(e)
            },
            Ok(poly) => {
                let d = poly.degree();
                let b = d <= 1;
                proof {
                    assert(distinct_vals(domain@));
                    let pp0 = points@[0].0.field.p as int;
                    if is_prime(pp0) && b {
                        assert(domain@[0].field == points@[0].0.field);
                        assert forall|i2: int| 0 <= i2 < points@.len() implies poly_eval(
                            poly.vals(),
                            (#[trigger] points@[i2]).0.value as int,
                            pp0,
                        ) == points@[i2].1.value as int by {
                            assert(domain@[i2] == points@[i2].0);
                            assert(values@[i2] == points@[i2].1);
                            assert(poly_eval(poly.vals(), domain@[i2].value as int, pp0)
                                == values@[i2].value as int);
                        }
                        assert(line_through(poly.vals(), points@, pp0));
                    }
                    if is_prime(pp0) && !b {
                        // completeness: any line would force the interpolant's
                        // degree down to one, against the computed degree
                        assert(!(exists|s: Seq<int>|
                            #[trigger] line_through(s, points@, pp0))) by {
                            if exists|s: Seq<int>| #[trigger] line_through(s, points@, pp0) {
                                let line = choose|s: Seq<int>|
                                    #[trigger] line_through(s, points@, pp0);
                                let pv = poly.vals();
                                let dp = poly_deg(pv);
                                assert(dp >= 2);
                                lemma_deg_bounds(pv);
                                lemma_deg_bounds(line);
                                lemma_small_mod(0, pp0 as nat);
                                let el = if pv.len() >= line.len() {
                                    pv.len()
                                } else {
                                    line.len()
                                };
                                let ee = Seq::new(
                                    el,
                                    |k: int| pcoef(pv, k) - pcoef(line, k),
                                );
                                assert forall|k: int| #[trigger] pcoef(ee, k) == pcoef(pv, k)
                                    - pcoef(line, k) by {
                                    if !(0 <= k < el) {
                                        assert(pcoef(pv, k) == 0 && pcoef(line, k) == 0);
                                    }
                                }
                                let pts_vals = Seq::new(
                                    domain@.len(),
                                    |i2: int| domain@[i2].value as int,
                                );
                                // the difference vanishes on the whole domain
                                assert forall|i2: int| 0 <= i2 < pts_vals.len() implies
                                    poly_eval(ee, #[trigger] pts_vals[i2], pp0) == 0 by {
                                    let xi = pts_vals[i2];
                                    lemma_eval_matches_diff(pv, line, ee, xi, pp0);
                                    assert(domain@[i2] == points@[i2].0);
                                    assert(values@[i2] == points@[i2].1);
                                    assert(poly_eval(pv, xi, pp0) == values@[i2].value as int);
                                    assert(poly_eval(line, (#[trigger] points@[i2]).0.value
                                        as int, pp0) == points@[i2].1.value as int);
                                    assert(poly_eval(ee, xi, pp0) == (poly_eval(pv, xi, pp0)
                                        - poly_eval(line, xi, pp0)) % pp0);
                                }
                                // its residue degree is the interpolant's degree
                                assert(pcoef(ee, dp) % pp0 != 0) by {
                                    assert(pcoef(line, dp) == 0);
                                    assert(poly.coefficients@[dp].wf());
                                    assert(pcoef(ee, dp) == pv[dp]);
                                    assert(0 < pv[dp] < pp0 || pv[dp] == 0);
                                    assert(pv[dp] != 0);
                                    lemma_small_mod(pv[dp] as nat, pp0 as nat);
                                }
                                assert forall|k: int| k > dp implies #[trigger] pcoef(ee, k)
                                    % pp0 == 0 by {
                                    assert(pcoef(pv, k) == 0);
                                    assert(pcoef(line, k) == 0);
                                }
                                lemma_mdeg_bounds(ee, pp0);
                                assert(mdeg(ee, pp0) >= dp) by {
                                    if mdeg(ee, pp0) < dp {
                                        assert(pcoef(ee, dp) % pp0 == 0);
                                        assert(false);
                                    }
                                }
                                assert(mdeg(ee, pp0) <= dp) by {
                                    if mdeg(ee, pp0) > dp {
                                        assert(pcoef(ee, mdeg(ee, pp0)) % pp0 == 0);
                                        assert(false);
                                    }
                                }
                                // but it has more distinct roots than that
                                assert forall|i2: int| 0 <= i2 < pts_vals.len() implies 0
                                    <= #[trigger] pts_vals[i2] < pp0 by {
                                    assert(domain@[i2].wf());
                                }
                                assert forall|i2: int, j2: int|
                                    0 <= i2 < pts_vals.len() && 0 <= j2 < pts_vals.len() && i2
                                        != j2 implies #[trigger] pts_vals[i2]
                                    != #[trigger] pts_vals[j2] by {
                                    assert(domain@[i2].value != domain@[j2].value);
                                }
                                lemma_root_count(ee, pts_vals, pp0);
                                assert(mdeg(ee, pp0) >= domain@.len());
                                assert(dp < domain@.len());
                                assert(false);
                            }
                        }
                    }
                }
                Ok(b)
            },
        }
    }
}

/// Adding onto the zero polynomial returns the other side unchanged.
proof fn lemma_zero_add_keeps(a: Polynomial, b: Polynomial, r: Polynomial)
    requires
        a.compat(b),
        poly_deg(a.vals()) == -1,
        r.coefficients@ == b.coefficients@,
    ensures
        forall|k: int|
            #![trigger pcoef(r.vals(), k)]
            pcoef(r.vals(), k) == f_add(pcoef(a.vals(), k), pcoef(b.vals(), k), a.joint_modulus(b)),
{
    let pm = a.joint_modulus(b);
    lemma_deg_bounds(a.vals());
    lemma_small_mod(0, pm as nat);
    assert forall|k: int| #![trigger pcoef(r.vals(), k)]
        pcoef(r.vals(), k) == f_add(pcoef(a.vals(), k), pcoef(b.vals(), k), pm) by {
        assert(pcoef(a.vals(), k) == 0);
        if 0 <= k < b.vals().len() {
            assert(b.coefficients@[k].wf());
            lemma_small_mod(b.coefficients@[k].value as nat, pm as nat);
        }
    }
}

/// Adding the zero polynomial returns this side unchanged.
proof fn lemma_add_zero_keeps(a: Polynomial, b: Polynomial, r: Polynomial)
    requires
        a.compat(b),
        poly_deg(b.vals()) == -1,
        r.coefficients@ == a.coefficients@,
    ensures
        forall|k: int|
            #![trigger pcoef(r.vals(), k)]
            pcoef(r.vals(), k) == f_add(pcoef(a.vals(), k), pcoef(b.vals(), k), a.joint_modulus(b)),
{
    let pm = a.joint_modulus(b);
    lemma_deg_bounds(b.vals());
    lemma_small_mod(0, pm as nat);
    assert forall|k: int| #![trigger pcoef(r.vals(), k)]
        pcoef(r.vals(), k) == f_add(pcoef(a.vals(), k), pcoef(b.vals(), k), pm) by {
        assert(pcoef(b.vals(), k) == 0);
        if 0 <= k < a.vals().len() {
            assert(a.coefficients@[k].wf());
            lemma_small_mod(a.coefficients@[k].value as nat, pm as nat);
        }
    }
}

} // verus!
