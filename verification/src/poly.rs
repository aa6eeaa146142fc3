//! Polynomials over GF(2^128).
//!
//! A polynomial is an ordered coefficient sequence: index `i` holds the
//! coefficient of `x^i`, and the degree is the length minus one. The
//! canonical form keeps the highest-index coefficient nonzero unless the
//! polynomial is zero, which is represented as the single coefficient 0;
//! operations that can produce trailing zero coefficients trim them.

use vstd::pervasive::VecAdditionalExecFns;
use vstd::prelude::*;

use crate::f128::{
    lemma_mul_one_left, lemma_pow_one, lemma_xor_zero, spec_fe_inv, spec_fe_mul, spec_fe_pow,
    F128Element, INVERSION_EXPONENT, SQRT_EXPONENT,
};

verus! {

/// The additive identity of the field.
pub open spec fn fe_zero() -> F128Element {
    F128Element(0)
}

/// The multiplicative identity of the field.
pub open spec fn fe_one() -> F128Element {
    F128Element(1)
}

/// Canonical form: at least one coefficient, and a nonzero leading
/// coefficient unless the sequence is the single coefficient of the zero
/// polynomial.
pub open spec fn wf_seq(s: Seq<F128Element>) -> bool {
    s.len() >= 1 && (s.len() > 1 ==> s.last() != fe_zero())
}

/// The canonical zero polynomial.
pub open spec fn is_zero_seq(s: Seq<F128Element>) -> bool {
    s.len() == 1 && s[0] == fe_zero()
}

/// The constant polynomial one.
pub open spec fn is_one_seq(s: Seq<F128Element>) -> bool {
    s.len() == 1 && s[0] == fe_one()
}

/// Remove trailing zero coefficients, keeping at least one coefficient.
pub open spec fn spec_trim(s: Seq<F128Element>) -> Seq<F128Element>
    decreases s.len(),
{
    if s.len() == 0 {
        seq![fe_zero()]
    } else if s.len() == 1 {
        s
    } else if s.last() == fe_zero() {
        spec_trim(s.drop_last())
    } else {
        s
    }
}

/// Trimming yields a canonical sequence no longer than the input.
pub proof fn lemma_trim_wf(s: Seq<F128Element>)
    ensures
        wf_seq(spec_trim(s)),
        spec_trim(s).len() >= 1,
        s.len() >= 1 ==> spec_trim(s).len() <= s.len(),
        s.len() == 0 ==> spec_trim(s).len() == 1,
    decreases s.len(),
{
    if s.len() > 1 && s.last() == fe_zero() {
        lemma_trim_wf(s.drop_last());
    }
}

/// A canonical sequence is already trimmed.
pub proof fn lemma_trim_canonical(s: Seq<F128Element>)
    requires
        wf_seq(s),
    ensures
        spec_trim(s) == s,
{
}

/// The coefficient of `x^k`, with zero padding past the end.
pub open spec fn coeff_at(s: Seq<F128Element>, k: int) -> u128 {
    if 0 <= k < s.len() {
        s[k].0
    } else {
        0
    }
}

/// Coefficientwise sum of two coefficient sequences, trimmed. In
/// characteristic 2, this is also their difference.
pub open spec fn spec_padd(a: Seq<F128Element>, b: Seq<F128Element>) -> Seq<F128Element> {
    spec_trim(
        Seq::new(
            if a.len() >= b.len() {
                a.len()
            } else {
                b.len()
            },
            |k: int| F128Element(coeff_at(a, k) ^ coeff_at(b, k)),
        ),
    )
}

/// The contribution of row `i` (the coefficient `a[i]`) to the coefficient of
/// `x^k` of the product `a * b`.
pub open spec fn conv_term(a: Seq<F128Element>, b: Seq<F128Element>, i: int, k: int) -> u128 {
    if 0 <= i < a.len() && 0 <= k - i < b.len() {
        spec_fe_mul(a[i].0, b[k - i].0)
    } else {
        0
    }
}

/// The partial convolution coefficient of `x^k`: the field sum of
/// `a[i] * b[k-i]` over the first `rows` rows.
pub open spec fn conv_acc(a: Seq<F128Element>, b: Seq<F128Element>, k: int, rows: int) -> u128
    decreases rows,
{
    if rows <= 0 {
        0
    } else {
        conv_acc(a, b, k, rows - 1) ^ conv_term(a, b, rows - 1, k)
    }
}

/// The full convolution product of two coefficient sequences, trimmed:
/// coefficient `k` of the product is the field sum over all `i + j == k` of
/// `a[i] * b[j]`.
pub open spec fn spec_pmul(a: Seq<F128Element>, b: Seq<F128Element>) -> Seq<F128Element> {
    spec_trim(
        Seq::new((a.len() + b.len() - 1) as nat, |k: int| F128Element(conv_acc(a, b, k, a.len() as int))),
    )
}

/// The formal derivative in characteristic 2: the coefficient of `x^i` in the
/// result is the coefficient of `x^(i+1)` of the input when `i` is even, and
/// zero when it is odd, because the integer multiplier vanishes mod 2.
pub open spec fn spec_deriv(s: Seq<F128Element>) -> Seq<F128Element> {
    spec_trim(
        Seq::new(
            (s.len() - 1) as nat,
            |i: int|
                if i % 2 == 0 {
                    s[i + 1]
                } else {
                    fe_zero()
                },
        ),
    )
}

/// The square root of a perfect-square polynomial: the field square root of
/// each even-position coefficient, at half its exponent.
pub open spec fn spec_sqrt(s: Seq<F128Element>) -> Seq<F128Element> {
    spec_trim(
        Seq::new(
            ((s.len() + 1) / 2) as nat,
            |i: int| F128Element(spec_fe_pow(s[2 * i].0, SQRT_EXPONENT)),
        ),
    )
}

/// Evaluation at a field element by Horner's rule: the value of the
/// polynomial with coefficients `s` at the point `at`.
pub open spec fn spec_eval(s: Seq<F128Element>, at: F128Element) -> F128Element
    decreases s.len(),
{
    if s.len() == 0 {
        fe_zero()
    } else {
        F128Element(spec_fe_mul(spec_eval(s.drop_first(), at).0, at.0) ^ s[0].0)
    }
}

/// Multiplying the constant one by a coefficient sequence yields the sequence
/// back, trimmed.
pub proof fn lemma_pmul_one(s: Seq<F128Element>)
    ensures
        spec_pmul(seq![fe_one()], s) == spec_trim(s),
{
    let a = seq![fe_one()];
    let raw = Seq::new((a.len() + s.len() - 1) as nat, |k: int| F128Element(conv_acc(a, s, k, 1)));
    assert forall|k: int| 0 <= k < s.len() implies raw[k] == s[k] by {
        assert(conv_acc(a, s, k, 1) == conv_acc(a, s, k, 0) ^ conv_term(a, s, 0, k));
        assert(conv_term(a, s, 0, k) == spec_fe_mul(1, s[k].0));
        lemma_mul_one_left(s[k].0);
        let v = s[k].0;
        assert(0 ^ v == v) by (bit_vector);
    }
    assert(raw =~= s);
}

/// Monic normalization: every coefficient multiplied by the inverse of the
/// leading coefficient.
pub open spec fn spec_to_monic(s: Seq<F128Element>) -> Seq<F128Element> {
    spec_trim(
        Seq::new(s.len(), |i: int| F128Element(spec_fe_mul(spec_fe_inv(s.last().0), s[i].0))),
    )
}

/// One elimination row of long division: the divisor `b`, scaled by `c`,
/// added into the working remainder `r` at offset `t`, cancelling the term at
/// position `t + b.len() - 1`.
pub open spec fn spec_div_row(r: Seq<F128Element>, b: Seq<F128Element>, c: u128, t: int) -> Seq<
    F128Element,
> {
    Seq::new(
        r.len(),
        |k: int|
            if t <= k < t + b.len() {
                F128Element(r[k].0 ^ spec_fe_mul(c, b[k - t].0))
            } else {
                r[k]
            },
    )
}

/// Long division from the top down: eliminate the positions `kk - 1` down to
/// zero of the working remainder `r`, where `inv` is the inverse of the
/// divisor's leading coefficient. Returns the quotient coefficients (one per
/// eliminated position) and the final working remainder.
pub open spec fn spec_div_steps(
    r: Seq<F128Element>,
    b: Seq<F128Element>,
    inv: u128,
    kk: nat,
) -> (Seq<F128Element>, Seq<F128Element>)
    decreases kk,
{
    if kk == 0 {
        (Seq::empty(), r)
    } else {
        let t = kk - 1;
        let c = spec_fe_mul(inv, r[t + b.len() - 1].0);
        let rest = spec_div_steps(spec_div_row(r, b, c, t), b, inv, (kk - 1) as nat);
        (rest.0.push(F128Element(c)), rest.1)
    }
}

pub proof fn lemma_div_steps_len(r: Seq<F128Element>, b: Seq<F128Element>, inv: u128, kk: nat)
    ensures
        spec_div_steps(r, b, inv, kk).0.len() == kk,
        spec_div_steps(r, b, inv, kk).1.len() == r.len(),
    decreases kk,
{
    if kk > 0 {
        let t = kk - 1;
        let c = spec_fe_mul(inv, r[t + b.len() - 1].0);
        lemma_div_steps_len(spec_div_row(r, b, c, t as int), b, inv, (kk - 1) as nat);
    }
}

/// The quotient and remainder of polynomial long division, both trimmed: a
/// dividend shorter than the divisor is returned whole as the remainder, and
/// otherwise the quotient coefficient at each position is the inverse of the
/// divisor's leading coefficient times the top term it eliminates, and the
/// remainder is what is left below the divisor's degree.
pub open spec fn spec_pdiv_rem(a: Seq<F128Element>, b: Seq<F128Element>) -> (
    Seq<F128Element>,
    Seq<F128Element>,
) {
    if a.len() < b.len() {
        (seq![fe_zero()], spec_trim(a))
    } else {
        let steps = spec_div_steps(a, b, spec_fe_inv(b.last().0), (a.len() - b.len() + 1) as nat);
        (spec_trim(steps.0), spec_trim(steps.1.take(b.len() - 1)))
    }
}

/// The remainder of long division is canonical and shorter than a nonconstant
/// divisor; a constant divisor leaves the zero remainder.
pub proof fn lemma_pdiv_rem_props(a: Seq<F128Element>, b: Seq<F128Element>)
    requires
        b.len() >= 1,
    ensures
        wf_seq(spec_pdiv_rem(a, b).1),
        spec_pdiv_rem(a, b).1.len() <= b.len(),
        b.len() > 1 ==> spec_pdiv_rem(a, b).1.len() < b.len(),
        b.len() == 1 ==> is_zero_seq(spec_pdiv_rem(a, b).1),
{
    if a.len() < b.len() {
        lemma_trim_wf(a);
        if b.len() == 1 {
            assert(a.len() == 0);
        }
    } else {
        let steps = spec_div_steps(a, b, spec_fe_inv(b.last().0), (a.len() - b.len() + 1) as nat);
        lemma_div_steps_len(a, b, spec_fe_inv(b.last().0), (a.len() - b.len() + 1) as nat);
        lemma_trim_wf(steps.1.take(b.len() - 1));
    }
}

/// Modular square-and-multiply accumulator, walking the exponent's bits from
/// least significant upward: `r` is the partial result and `s` the running
/// square, both reduced by the modulus `m` after every multiplication.
pub open spec fn spec_powmod_acc(
    r: Seq<F128Element>,
    s: Seq<F128Element>,
    e: u128,
    m: Seq<F128Element>,
) -> Seq<F128Element>
    decreases e,
{
    if e == 0 {
        r
    } else {
        spec_powmod_acc(
            if e % 2 == 1 {
                spec_pdiv_rem(spec_pmul(r, s), m).1
            } else {
                r
            },
            spec_pdiv_rem(spec_pmul(s, s), m).1,
            e / 2,
            m,
        )
    }
}

/// The modular power `base^e mod m`.
pub open spec fn spec_powmod(base: Seq<F128Element>, e: u128, m: Seq<F128Element>) -> Seq<
    F128Element,
> {
    spec_powmod_acc(seq![fe_one()], base, e, m)
}

/// Termination measure for the Euclidean algorithm: division by a nonzero
/// constant yields the zero remainder, so the measure must separate the zero
/// polynomial from nonzero constants.
pub open spec fn gcd_measure(s: Seq<F128Element>) -> int {
    if is_zero_seq(s) {
        0
    } else {
        2 * (s.len() as int) + 1
    }
}

/// The greatest common divisor by the Euclidean algorithm, not normalized to
/// monic form: replace the pair with the divisor and the remainder until the
/// remainder is zero.
pub open spec fn spec_gcd(x: Seq<F128Element>, y: Seq<F128Element>) -> Seq<F128Element>
    decreases gcd_measure(y),
        via spec_gcd_decreases
{
    if y.len() == 0 || is_zero_seq(y) {
        x
    } else {
        spec_gcd(y, spec_pdiv_rem(x, y).1)
    }
}

#[via_fn]
proof fn spec_gcd_decreases(x: Seq<F128Element>, y: Seq<F128Element>) {
    if y.len() >= 1 && !is_zero_seq(y) {
        lemma_pdiv_rem_props(x, y);
    }
}

/// A polynomial over GF(2^128): index `i` holds the coefficient of `x^i`.
#[derive(Clone, Debug, PartialEq, Eq)]
pub struct F128Polynomial(pub Vec<F128Element>);

impl View for F128Polynomial {
    type V = Seq<F128Element>;

    open spec fn view(&self) -> Seq<F128Element> {
        self.0@
    }
}

impl F128Polynomial {
    /// The coefficient sequence is in canonical form.
    pub open spec fn wf(&self) -> bool {
        wf_seq(self@)
    }

    /// Trim a coefficient vector into a canonical polynomial.
    fn into_canonical(coefficients: Vec<F128Element>) -> (r: F128Polynomial)
        ensures
            r@ == spec_trim(coefficients@),
            r.wf(),
    {
        let mut v = coefficients;
        if v.len() == 0 {
            v.push(F128Element(0));
            proof {
                assert(v@ =~= seq![fe_zero()]);
            }
        } else {
            while v.len() > 1 && v[v.len() - 1].0 == 0
                invariant
                    v@.len() >= 1,
                    spec_trim(v@) == spec_trim(coefficients@),
                decreases v@.len(),
            {
                proof {
                    assert(v@.drop_last() =~= v@.subrange(0, v@.len() - 1));
                }
                v.pop();
            }
        }
        proof {
            lemma_trim_wf(coefficients@);
            assert(spec_trim(v@) == v@);
        }
        F128Polynomial(v)
    }

    /// Construct from a coefficient sequence, restoring canonical form.
    pub fn new(coefficients: Vec<F128Element>) -> (r: F128Polynomial)
        ensures
            r@ == spec_trim(coefficients@),
            r.wf(),
    {
        Self::into_canonical(coefficients)
    }

    /// The constant polynomial one.
    pub fn one() -> (r: F128Polynomial)
        ensures
            r@ == seq![fe_one()],
            r.wf(),
            is_one_seq(r@),
    {
        let mut v: Vec<F128Element> = Vec::new();
        v.push(F128Element(1));
        proof {
            assert(v@ =~= seq![fe_one()]);
        }
        F128Polynomial(v)
    }

    /// Whether this is the canonical zero polynomial.
    pub fn is_zero(&self) -> (r: bool)
        ensures
            r == is_zero_seq(self@),
    {
        self.0.len() == 1 && self.0[0].0 == 0
    }

    /// Whether this is the constant polynomial one.
    pub fn is_one(&self) -> (r: bool)
        ensures
            r == is_one_seq(self@),
    {
        self.0.len() == 1 && self.0[0].0 == 1
    }

    /// Coefficientwise equality.
    pub fn eq_poly(&self, other: &F128Polynomial) -> (r: bool)
        ensures
            r == (self@ == other@),
    {
        if self.0.len() != other.0.len() {
            return false;
        }
        let mut i: usize = 0;
        while i < self.0.len()
            invariant
                i <= self@.len(),
                self@.len() == other@.len(),
                forall|j: int| 0 <= j < i ==> self@[j] == other@[j],
            decreases self@.len() - i,
        {
            if self.0[i].0 != other.0[i].0 {
                return false;
            }
            i += 1;
        }
        proof {
            assert(self@ =~= other@);
        }
        true
    }

    /// A fresh copy of the coefficient sequence.
    pub fn clone_poly(&self) -> (r: F128Polynomial)
        ensures
            r@ == self@,
    {
        let mut v: Vec<F128Element> = Vec::new();
        let mut i: usize = 0;
        while i < self.0.len()
            invariant
                i <= self@.len(),
                v@ =~= self@.subrange(0, i as int),
            decreases self@.len() - i,
        {
            v.push(self.0[i]);
            i += 1;
        }
        proof {
            assert(v@ =~= self@);
        }
        F128Polynomial(v)
    }

    /// Polynomial sum: coefficientwise field addition with the shorter operand
    /// zero-padded, trimmed to canonical form. In characteristic 2 this is
    /// also the difference.
    pub fn add(&self, other: &F128Polynomial) -> (r: F128Polynomial)
        ensures
            r@ == spec_padd(self@, other@),
            r.wf(),
    {
        let n = if self.0.len() >= other.0.len() {
            self.0.len()
        } else {
            other.0.len()
        };
        let mut out: Vec<F128Element> = Vec::new();
        let mut k: usize = 0;
        while k < n
            invariant
                k <= n,
                n == if self@.len() >= other@.len() {
                    self@.len()
                } else {
                    other@.len()
                },
                out@.len() == k,
                forall|j: int|
                    0 <= j < k ==> out@[j] == F128Element(coeff_at(self@, j) ^ coeff_at(other@, j)),
            decreases n - k,
        {
            let xa = if k < self.0.len() {
                self.0[k].0
            } else {
                0
            };
            let xb = if k < other.0.len() {
                other.0[k].0
            } else {
                0
            };
            out.push(F128Element(xa ^ xb));
            k += 1;
        }
        proof {
            assert(out@ =~= Seq::new(
                if self@.len() >= other@.len() {
                    self@.len()
                } else {
                    other@.len()
                },
                |j: int| F128Element(coeff_at(self@, j) ^ coeff_at(other@, j)),
            ));
        }
        Self::into_canonical(out)
    }

    /// Polynomial product: the full convolution, each coefficient of the
    /// result being the field sum over all index pairs adding up to it.
    pub fn mul(&self, other: &F128Polynomial) -> (r: F128Polynomial)
        requires
            self@.len() >= 1,
            other@.len() >= 1,
        ensures
            r@ == spec_pmul(self@, other@),
            r.wf(),
            r@.len() <= self@.len() + other@.len() - 1,
    {
        let n = self.0.len();
        let m = other.0.len();
        let mut out: Vec<F128Element> = Vec::new();
        let mut k: usize = 0;
        while k < n
            invariant
                k <= n,
                n == self@.len(),
                out@.len() == k,
                forall|t: int| 0 <= t < k ==> out@[t] == fe_zero(),
            decreases n - k,
        {
            out.push(F128Element(0));
            k += 1;
        }
        let mut k2: usize = 1;
        while k2 < m
            invariant
                1 <= k2 <= m || m == 0,
                m == other@.len(),
                n == self@.len(),
                out@.len() == n + k2 - 1,
                forall|t: int| 0 <= t < out@.len() ==> out@[t] == fe_zero(),
            decreases m - k2,
        {
            out.push(F128Element(0));
            k2 += 1;
        }
        let total = out.len();
        proof {
            assert(total == n + m - 1);
            assert(forall|t: int| 0 <= t < out@.len() ==> out@[t].0 == #[trigger] conv_acc(
                self@,
                other@,
                t,
                0,
            ));
        }
        let mut i: usize = 0;
        while i < n
            invariant
                i <= n,
                n == self@.len(),
                m == other@.len(),
                1 <= m,
                out@.len() == total,
                total == n + m - 1,
                forall|t: int|
                    0 <= t < out@.len() ==> out@[t].0 == #[trigger] conv_acc(self@, other@, t, i as int),
            decreases n - i,
        {
            let mut j: usize = 0;
            while j < m
                invariant
                    j <= m,
                    i < n,
                    n == self@.len(),
                    m == other@.len(),
                    out@.len() == total,
                    total == n + m - 1,
                    forall|t: int|
                        0 <= t < out@.len() ==> out@[t].0 == (if i <= t < i + j {
                            #[trigger] conv_acc(self@, other@, t, i as int) ^ conv_term(
                                self@,
                                other@,
                                i as int,
                                t,
                            )
                        } else {
                            conv_acc(self@, other@, t, i as int)
                        }),
                decreases m - j,
            {
                let idx = i + j;
                let cur = out[idx];
                let prod = self.0[i].mul(other.0[j]);
                proof {
                    assert(conv_term(self@, other@, i as int, idx as int) == prod.0);
                }
                out.set(idx, F128Element(cur.0 ^ prod.0));
                j += 1;
            }
            proof {
                assert forall|t: int| 0 <= t < out@.len() implies out@[t].0 == #[trigger] conv_acc(
                    self@,
                    other@,
                    t,
                    i + 1,
                ) by {
                    let before = conv_acc(self@, other@, t, i as int);
                    assert(conv_acc(self@, other@, t, i + 1) == before ^ conv_term(
                        self@,
                        other@,
                        i as int,
                        t,
                    ));
                    if i <= t < i + m {
                    } else {
                        assert(conv_term(self@, other@, i as int, t) == 0);
                        lemma_xor_zero(before);
                    }
                }
            }
            i += 1;
        }
        proof {
            assert(out@ =~= Seq::new(
                (self@.len() + other@.len() - 1) as nat,
                |t: int| F128Element(conv_acc(self@, other@, t, self@.len() as int)),
            ));
            lemma_trim_wf(out@);
        }
        Self::into_canonical(out)
    }

    /// The formal derivative in characteristic 2: even-exponent terms vanish,
    /// odd-exponent terms keep their coefficient one position down.
    pub fn derivative(&self) -> (r: F128Polynomial)
        requires
            self@.len() >= 1,
        ensures
            r@ == spec_deriv(self@),
            r.wf(),
            r@.len() < self@.len() || r@.len() == 1,
    {
        let n = self.0.len();
        let mut out: Vec<F128Element> = Vec::new();
        let mut i: usize = 1;
        while i < n
            invariant
                1 <= i <= n || n == 0,
                n == self@.len(),
                out@.len() == i - 1,
                forall|j: int|
                    0 <= j < i - 1 ==> out@[j] == (if j % 2 == 0 {
                        self@[j + 1]
                    } else {
                        fe_zero()
                    }),
            decreases n - i,
        {
            if i % 2 == 1 {
                out.push(self.0[i]);
            } else {
                out.push(F128Element(0));
            }
            i += 1;
        }
        proof {
            assert(out@ =~= Seq::new(
                (self@.len() - 1) as nat,
                |j: int|
                    if j % 2 == 0 {
                        self@[j + 1]
                    } else {
                        fe_zero()
                    },
            ));
            lemma_trim_wf(out@);
        }
        Self::into_canonical(out)
    }

    /// The square root of a perfect-square polynomial, if it is one: defined
    /// exactly when every odd-position coefficient is zero, in which case the
    /// result takes the field square root of each even-position coefficient
    /// and halves every exponent.
    pub fn sqrt(&self) -> (r: Option<F128Polynomial>)
        requires
            self@.len() >= 1,
        ensures
            r.is_some() <==> (forall|i: int|
                0 <= i < self@.len() && i % 2 == 1 ==> self@[i] == fe_zero()),
            r.is_some() ==> r.unwrap()@ == spec_sqrt(self@),
            r.is_some() ==> r.unwrap().wf() && r.unwrap()@.len() <= (self@.len() + 1) / 2,
    {
        let n = self.0.len();
        let mut j: usize = 0;
        while j < n / 2
            invariant
                j <= n / 2,
                n == self@.len(),
                forall|t: int| 0 <= t < self@.len() && t % 2 == 1 && t < 2 * j + 1 ==> self@[t] == fe_zero(),
            decreases n / 2 - j,
        {
            let idx = 2 * j + 1;
            if self.0[idx].0 != 0 {
                return None;
            }
            j += 1;
        }
        proof {
            assert forall|t: int| 0 <= t < self@.len() && t % 2 == 1 implies self@[t] == fe_zero() by {
                assert(t < 2 * (n as int / 2) + 1);
            }
        }
        let half = n / 2 + n % 2;
        let mut out: Vec<F128Element> = Vec::new();
        let mut t: usize = 0;
        while t < half
            invariant
                t <= half,
                half == (n + 1) / 2,
                half == n / 2 + n % 2,
                n == self@.len(),
                out@.len() == t,
                forall|u: int|
                    0 <= u < t ==> out@[u] == F128Element(spec_fe_pow(self@[2 * u].0, SQRT_EXPONENT)),
            decreases half - t,
        {
            let idx = 2 * t;
            out.push(self.0[idx].sqrt());
            t += 1;
        }
        proof {
            assert(out@ =~= Seq::new(
                ((self@.len() + 1) / 2) as nat,
                |u: int| F128Element(spec_fe_pow(self@[2 * u].0, SQRT_EXPONENT)),
            ));
            lemma_trim_wf(out@);
        }
        Some(Self::into_canonical(out))
    }

    /// Evaluate the polynomial at a field element by Horner's rule.
    pub fn eval(&self, at: F128Element) -> (r: F128Element)
        ensures
            r == spec_eval(self@, at),
    {
        let mut acc = F128Element(0);
        let mut k = self.0.len();
        proof {
            assert(self@.skip(k as int) =~= Seq::<F128Element>::empty());
        }
        while k > 0
            invariant
                k <= self@.len(),
                acc == spec_eval(self@.skip(k as int), at),
            decreases k,
        {
            k -= 1;
            let ghost high = self@.skip(k as int + 1);
            acc = acc.mul(at).add(self.0[k]);
            proof {
                assert(self@.skip(k as int).drop_first() =~= high);
                assert(self@.skip(k as int)[0] == self@[k as int]);
            }
        }
        proof {
            assert(self@.skip(0) =~= self@);
        }
        acc
    }

    /// Monic normalization: divide every coefficient by the leading
    /// coefficient, so that the leading coefficient becomes one.
    pub fn to_monic(&self) -> (r: F128Polynomial)
        requires
            self.wf(),
            !is_zero_seq(self@),
        ensures
            r@ == spec_to_monic(self@),
            r.wf(),
            r@.len() <= self@.len(),
    {
        let n = self.0.len();
        let lc = self.0[n - 1];
        proof {
            assert(lc == self@.last());
            assert(lc.0 != 0);
        }
        let inv = if lc.0 == 1 {
            proof {
                lemma_pow_one(INVERSION_EXPONENT);
            }
            F128Element(1)
        } else {
            lc.invert()
        };
        let mut out: Vec<F128Element> = Vec::new();
        let mut i: usize = 0;
        while i < n
            invariant
                i <= n,
                n == self@.len(),
                inv.0 == spec_fe_inv(self@.last().0),
                out@.len() == i,
                forall|j: int|
                    0 <= j < i ==> out@[j] == F128Element(
                        spec_fe_mul(spec_fe_inv(self@.last().0), self@[j].0),
                    ),
            decreases n - i,
        {
            out.push(inv.mul(self.0[i]));
            i += 1;
        }
        proof {
            assert(out@ =~= Seq::new(
                self@.len(),
                |j: int| F128Element(spec_fe_mul(spec_fe_inv(self@.last().0), self@[j].0)),
            ));
            lemma_trim_wf(out@);
        }
        Self::into_canonical(out)
    }

    /// Quotient and remainder of polynomial long division: eliminate the
    /// dividend's terms from the top down using the inverse of the divisor's
    /// leading coefficient. Division by the zero polynomial is excluded.
    pub fn div_rem(&self, divisor: &F128Polynomial) -> (qr: (F128Polynomial, F128Polynomial))
        requires
            self@.len() >= 1,
            wf_seq(divisor@),
            !is_zero_seq(divisor@),
        ensures
            qr.0@ == spec_pdiv_rem(self@, divisor@).0,
            qr.1@ == spec_pdiv_rem(self@, divisor@).1,
            qr.0.wf(),
            qr.1.wf(),
            qr.0@.len() <= self@.len(),
            qr.1@.len() <= divisor@.len(),
            divisor@.len() > 1 ==> qr.1@.len() < divisor@.len(),
            divisor@.len() == 1 ==> is_zero_seq(qr.1@),
            self@.len() < divisor@.len() ==> qr.1@ == spec_trim(self@) && is_zero_seq(qr.0@),
    {
        let n = self.0.len();
        let m = divisor.0.len();
        if n < m {
            let mut zq: Vec<F128Element> = Vec::new();
            zq.push(F128Element(0));
            let rem = Self::into_canonical(self.clone_poly().0);
            proof {
                assert(zq@ =~= seq![fe_zero()]);
                lemma_trim_wf(self@);
            }
            return (F128Polynomial(zq), rem);
        }
        let lc = divisor.0[m - 1];
        proof {
            assert(lc == divisor@.last());
            assert(lc.0 != 0);
        }
        let inv = if lc.0 == 1 {
            proof {
                lemma_pow_one(INVERSION_EXPONENT);
            }
            F128Element(1)
        } else {
            lc.invert()
        };
        proof {
            assert(inv.0 == spec_fe_inv(divisor@.last().0));
        }
        let mut r = self.clone_poly().0;
        let mut q: Vec<F128Element> = Vec::new();
        let qlen = n - m + 1;
        while q.len() < qlen
            invariant
                q@.len() <= qlen,
            decreases qlen - q@.len(),
        {
            q.push(F128Element(0));
        }
        let ghost full = spec_div_steps(self@, divisor@, inv.0, qlen as nat);
        proof {
            lemma_div_steps_len(self@, divisor@, inv.0, qlen as nat);
            assert(full.0.take(qlen as int) =~= full.0);
        }
        let mut k = qlen;
        while k > 0
            invariant
                k <= qlen,
                qlen == n - m + 1,
                1 <= m <= n,
                n == self@.len(),
                m == divisor@.len(),
                inv.0 == spec_fe_inv(divisor@.last().0),
                r@.len() == n,
                q@.len() == qlen,
                full == spec_div_steps(self@, divisor@, inv.0, qlen as nat),
                full.0.len() == qlen,
                spec_div_steps(r@, divisor@, inv.0, k as nat) == (full.0.take(k as int), full.1),
                forall|t: int| k <= t < qlen ==> q@[t] == full.0[t],
            decreases k,
        {
            k -= 1;
            let ghost r_before = r@;
            let c = inv.mul(r[k + m - 1]);
            proof {
                assert(c.0 == spec_fe_mul(inv.0, r_before[k + m - 1].0));
            }
            q.set(k, c);
            let mut j: usize = 0;
            while j < m
                invariant
                    j <= m,
                    k + m <= n,
                    m == divisor@.len(),
                    r@.len() == n,
                    c.0 == spec_fe_mul(inv.0, r_before[k + m - 1].0),
                    r_before.len() == n,
                    forall|t: int|
                        0 <= t < n ==> r@[t] == (if k <= t < k + j {
                            F128Element(r_before[t].0 ^ spec_fe_mul(c.0, divisor@[t - k].0))
                        } else {
                            r_before[t]
                        }),
                decreases m - j,
            {
                let idx = k + j;
                let cur = r[idx];
                let prod = c.mul(divisor.0[j]);
                r.set(idx, F128Element(cur.0 ^ prod.0));
                j += 1;
            }
            proof {
                assert(r@ =~= spec_div_row(r_before, divisor@, c.0, k as int));
                let stepped = spec_div_steps(r@, divisor@, inv.0, k as nat);
                assert(spec_div_steps(r_before, divisor@, inv.0, (k + 1) as nat) == (
                    stepped.0.push(F128Element(c.0)),
                    stepped.1,
                ));
                assert(F128Element(c.0) == c);
                assert(stepped.0.push(c) == full.0.take(k as int + 1));
                lemma_div_steps_len(r@, divisor@, inv.0, k as nat);
                assert(stepped.0 =~= full.0.take(k as int));
                assert(c == full.0.take(k as int + 1).last());
                assert(c == full.0[k as int]);
                assert(stepped.1 == full.1);
            }
        }
        proof {
            assert(spec_div_steps(r@, divisor@, inv.0, 0) == (full.0.take(0), full.1));
            assert(r@ == full.1);
            assert(q@ =~= full.0);
        }
        let mut rem: Vec<F128Element> = Vec::new();
        let mut t: usize = 0;
        while t < m - 1
            invariant
                t <= m - 1,
                m >= 1,
                r@.len() == n,
                m <= n,
                rem@.len() == t,
                forall|u: int| 0 <= u < t ==> rem@[u] == r@[u],
            decreases m - 1 - t,
        {
            rem.push(r[t]);
            t += 1;
        }
        proof {
            assert(rem@ =~= full.1.take(m - 1));
        }
        let quotient = Self::into_canonical(q);
        let remainder = Self::into_canonical(rem);
        proof {
            lemma_trim_wf(q@);
            lemma_trim_wf(rem@);
            if m == 1 {
                assert(rem@.len() == 0);
            }
        }
        (quotient, remainder)
    }

    /// The quotient of polynomial long division.
    pub fn div(&self, divisor: &F128Polynomial) -> (r: F128Polynomial)
        requires
            self@.len() >= 1,
            wf_seq(divisor@),
            !is_zero_seq(divisor@),
        ensures
            r@ == spec_pdiv_rem(self@, divisor@).0,
            r.wf(),
            r@.len() <= self@.len(),
    {
        self.div_rem(divisor).0
    }

    /// The remainder of polynomial long division.
    pub fn rem(&self, divisor: &F128Polynomial) -> (r: F128Polynomial)
        requires
            self@.len() >= 1,
            wf_seq(divisor@),
            !is_zero_seq(divisor@),
        ensures
            r@ == spec_pdiv_rem(self@, divisor@).1,
            r.wf(),
            r@.len() <= divisor@.len(),
            divisor@.len() > 1 ==> r@.len() < divisor@.len(),
            divisor@.len() == 1 ==> is_zero_seq(r@),
    {
        self.div_rem(divisor).1
    }

    /// Greatest common divisor by the Euclidean algorithm. The result is not
    /// normalized to monic form; callers normalize where they need it. It is
    /// nonzero whenever either argument is.
    pub fn gcd(a: F128Polynomial, b: &F128Polynomial) -> (r: F128Polynomial)
        requires
            a@.len() >= 1,
            wf_seq(b@),
        ensures
            r@ == spec_gcd(spec_trim(a@), b@),
            r.wf(),
            !is_zero_seq(spec_trim(a@)) || !is_zero_seq(b@) ==> !is_zero_seq(r@),
            r@.len() <= a@.len() || r@.len() <= b@.len(),
    {
        let ghost both_zero = is_zero_seq(spec_trim(a@)) && is_zero_seq(b@);
        let ghost bound_a = a@.len();
        let ghost bound_b = b@.len();
        let mut x = Self::into_canonical(a.0);
        proof {
            lemma_trim_wf(a@);
        }
        let mut y = b.clone_poly();
        while !y.is_zero()
            invariant
                x.wf(),
                y.wf(),
                spec_gcd(x@, y@) == spec_gcd(spec_trim(a@), b@),
                both_zero || !is_zero_seq(x@) || !is_zero_seq(y@),
                x@.len() <= bound_a || x@.len() <= bound_b,
                y@.len() <= bound_a || y@.len() <= bound_b,
            decreases gcd_measure(y@),
        {
            let r = x.rem(&y);
            x = y;
            y = r;
        }
        x
    }

    /// Modular exponentiation by repeated squaring, reducing by the modulus
    /// after every multiplication. The exponent is a full 128-bit value, wide
    /// enough for the Frobenius power 2^127 and the splitting exponent
    /// floor(2^128 / 3) that the factorization stages use.
    pub fn powmod(&self, exponent: u128, modulus: &F128Polynomial) -> (r: F128Polynomial)
        requires
            self@.len() >= 1,
            wf_seq(modulus@),
            !is_zero_seq(modulus@),
        ensures
            r@ == spec_powmod(self@, exponent, modulus@),
            r.wf(),
            r@.len() <= modulus@.len(),
            modulus@.len() > 1 ==> r@.len() < modulus@.len(),
    {
        let mut r = Self::one();
        let mut s = self.clone_poly();
        let mut e = exponent;
        while e != 0
            invariant
                r.wf(),
                r@.len() <= modulus@.len(),
                modulus@.len() > 1 ==> r@.len() < modulus@.len(),
                s@.len() >= 1,
                wf_seq(modulus@),
                !is_zero_seq(modulus@),
                spec_powmod_acc(r@, s@, e, modulus@) == spec_powmod(self@, exponent, modulus@),
            decreases e,
        {
            let ghost r0 = r@;
            let ghost s0 = s@;
            let ghost e0 = e;
            proof {
                assert(((e & 1) == 1) == (e % 2 == 1)) by (bit_vector);
                assert(e >> 1 == e / 2) by (bit_vector);
                assert(e / 2 < e);
            }
            if (e & 1) == 1 {
                r = r.mul(&s).rem(modulus);
            }
            s = s.mul(&s).rem(modulus);
            e = e >> 1;
            proof {
                assert(spec_powmod_acc(r0, s0, e0, modulus@) == spec_powmod_acc(
                    r@,
                    s@,
                    e,
                    modulus@,
                ));
            }
        }
        r
    }

    /// A uniformly random polynomial of exactly the given degree: degree + 1
    /// uniformly sampled coefficients, with the leading coefficient resampled
    /// while it is zero so that the degree is exact. The resampling runs
    /// under an attempt budget so large that exhausting it is unreachable in
    /// practice; past it the leading coefficient falls back to one, so the
    /// degree is exact in every outcome.
    pub fn random(degree: usize) -> (r: F128Polynomial)
        requires
            degree < usize::MAX,
        ensures
            r@.len() == degree + 1,
            r@.last() != fe_zero(),
            r.wf(),
    {
        let mut v: Vec<F128Element> = Vec::new();
        while v.len() < degree + 1
            invariant
                degree < usize::MAX,
                v@.len() <= degree + 1,
            decreases degree + 1 - v@.len(),
        {
            v.push(F128Element::random());
        }
        let mut fuel: u64 = u64::MAX;
        while v[degree].0 == 0 && fuel > 0
            invariant
                v@.len() == degree + 1,
                degree < usize::MAX,
            decreases fuel,
        {
            v.set(degree, F128Element::random());
            fuel -= 1;
        }
        if v[degree].0 == 0 {
            v.set(degree, F128Element(1));
        }
        F128Polynomial(v)
    }
}

/// A monic polynomial is a fixed point of monic normalization: the inverse of
/// the leading coefficient one is one, and multiplying by one changes no
/// coefficient. Hence normalization is idempotent: whenever normalizing once
/// yields a monic result, normalizing again returns it unchanged.
pub proof fn lemma_to_monic_fixed_point(s: Seq<F128Element>)
    requires
        wf_seq(s),
        !is_zero_seq(s),
        s.last() == fe_one(),
    ensures
        spec_to_monic(s) == s,
{
    lemma_pow_one(INVERSION_EXPONENT);
    assert forall|i: int| 0 <= i < s.len() implies Seq::new(
        s.len(),
        |j: int| F128Element(spec_fe_mul(spec_fe_inv(s.last().0), s[j].0)),
    )[i] == s[i] by {
        lemma_mul_one_left(s[i].0);
    }
    assert(Seq::new(
        s.len(),
        |j: int| F128Element(spec_fe_mul(spec_fe_inv(s.last().0), s[j].0)),
    ) =~= s);
    lemma_trim_canonical(s);
}

/// Monic normalization is idempotent: whenever one normalization yields a
/// monic result (its leading coefficient is one, as exact field arithmetic
/// always produces), normalizing that result again returns it unchanged.
pub proof fn lemma_to_monic_idempotent(s: Seq<F128Element>)
    requires
        wf_seq(s),
        !is_zero_seq(s),
        spec_to_monic(s).last() == fe_one(),
    ensures
        spec_to_monic(spec_to_monic(s)) == spec_to_monic(s),
{
    let t = spec_to_monic(s);
    lemma_trim_wf(Seq::new(s.len(), |i: int| F128Element(spec_fe_mul(spec_fe_inv(s.last().0), s[i].0))));
    assert(wf_seq(t));
    assert(!is_zero_seq(t));
    lemma_to_monic_fixed_point(t);
}

} // verus!
