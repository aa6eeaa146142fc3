//! Arithmetic in the binary field GF(2^128).
//!
//! An element is a 128-bit value whose bit `i` holds the coefficient of `x^i`
//! in a polynomial-basis representation modulo the fixed irreducible
//! polynomial `x^128 + x^7 + x^2 + x + 1`. Addition is bitwise xor;
//! multiplication is a carry-less product reduced modulo that polynomial.

use vstd::prelude::*;

verus! {

/// One element of GF(2^128), as the coefficients of its polynomial-basis
/// representation packed into a 128-bit value.
#[derive(Clone, Copy, PartialEq, Eq, Structural, Debug)]
pub struct F128Element(pub u128);

/// The low 128 bits of the field's modulus `x^128 + x^7 + x^2 + x + 1`:
/// the value that is xored in when a multiplication by x overflows.
pub const REDUCTION: u128 = 0x87;

/// 2^128 - 2. Raising a nonzero element to this power yields its
/// multiplicative inverse, since the multiplicative group has order 2^128 - 1.
pub const INVERSION_EXPONENT: u128 = 0xffff_ffff_ffff_ffff_ffff_ffff_ffff_fffe;

/// 2^127. Raising an element to this power and squaring once realizes the
/// Frobenius power x^(2^128) = x; raising to this power alone is the unique
/// field square root, since squaring is an automorphism of order 128.
pub const SQRT_EXPONENT: u128 = 0x8000_0000_0000_0000_0000_0000_0000_0000;

/// Multiplication by x: shift every coefficient up one position, and reduce
/// modulo the field polynomial when the coefficient of x^127 was set.
pub open spec fn spec_xtime(v: u128) -> u128 {
    if v >> 127 == 1 {
        (v << 1) ^ REDUCTION
    } else {
        v << 1
    }
}

/// Carry-less product accumulator: walks the bits of `x` from least
/// significant upward, adding `v` (the running product of the other factor by
/// successive powers of x) into `acc` wherever a bit of `x` is set.
pub open spec fn spec_mul_acc(x: u128, v: u128, acc: u128) -> u128
    decreases x,
{
    if x == 0 {
        acc
    } else {
        spec_mul_acc(
            x / 2,
            spec_xtime(v),
            if x % 2 == 1 {
                acc ^ v
            } else {
                acc
            },
        )
    }
}

/// The field product of `a` and `b`.
pub open spec fn spec_fe_mul(a: u128, b: u128) -> u128 {
    spec_mul_acc(a, b, 0)
}

/// Square-and-multiply accumulator, walking the exponent's bits from least
/// significant upward: `r` is the partial result, `s` the running square.
pub open spec fn spec_pow_acc(r: u128, s: u128, e: u128) -> u128
    decreases e,
{
    if e == 0 {
        r
    } else {
        spec_pow_acc(
            if e % 2 == 1 {
                spec_fe_mul(r, s)
            } else {
                r
            },
            spec_fe_mul(s, s),
            e / 2,
        )
    }
}

/// The field power `a^e`.
pub open spec fn spec_fe_pow(a: u128, e: u128) -> u128 {
    spec_pow_acc(1, a, e)
}

/// The multiplicative inverse of `a`, as the power `a^(2^128 - 2)`.
pub open spec fn spec_fe_inv(a: u128) -> u128 {
    spec_fe_pow(a, INVERSION_EXPONENT)
}

/// Multiply the representation by x and reduce modulo the field polynomial.
fn xtime(v: u128) -> (r: u128)
    ensures
        r == spec_xtime(v),
{
    if v >> 127 == 1 {
        (v << 1) ^ REDUCTION
    } else {
        v << 1
    }
}

impl F128Element {
    /// Field addition: coefficientwise addition in GF(2), that is bitwise xor.
    /// Every element is its own additive inverse, so subtraction coincides.
    pub fn add(self, other: F128Element) -> (r: F128Element)
        ensures
            r.0 == self.0 ^ other.0,
    {
        F128Element(self.0 ^ other.0)
    }

    /// Field multiplication: carry-less multiplication of the two coefficient
    /// vectors, reduced modulo the field polynomial after every shift.
    pub fn mul(self, other: F128Element) -> (r: F128Element)
        ensures
            r.0 == spec_fe_mul(self.0, other.0),
    {
        let mut x = self.0;
        let mut v = other.0;
        let mut acc: u128 = 0;
        while x != 0
            invariant
                spec_mul_acc(x, v, acc) == spec_fe_mul(self.0, other.0),
            decreases x,
        {
            proof {
                assert(((x & 1) == 1) == (x % 2 == 1)) by (bit_vector);
                assert(x >> 1 == x / 2) by (bit_vector);
            }
            if (x & 1) == 1 {
                acc = acc ^ v;
            }
            v = xtime(v);
            x = x >> 1;
        }
        F128Element(acc)
    }

    /// Field exponentiation by repeated squaring. The exponent is a full
    /// 128-bit value, wide enough for the powers 2^127 and 2^128 - 2 that the
    /// inversion and square-root operations need.
    pub fn pow(self, exponent: u128) -> (r: F128Element)
        ensures
            r.0 == spec_fe_pow(self.0, exponent),
    {
        let mut r = F128Element(1);
        let mut s = self;
        let mut e = exponent;
        while e != 0
            invariant
                spec_pow_acc(r.0, s.0, e) == spec_fe_pow(self.0, exponent),
            decreases e,
        {
            proof {
                assert(((e & 1) == 1) == (e % 2 == 1)) by (bit_vector);
                assert(e >> 1 == e / 2) by (bit_vector);
            }
            if (e & 1) == 1 {
                r = r.mul(s);
            }
            s = s.mul(s);
            e = e >> 1;
        }
        r
    }

    /// Multiplicative inverse, via the power ladder `a^(2^128 - 2)`.
    /// Only the additive identity has no inverse, and is excluded.
    pub fn invert(self) -> (r: F128Element)
        requires
            self.0 != 0,
        ensures
            r.0 == spec_fe_inv(self.0),
    {
        self.pow(INVERSION_EXPONENT)
    }

    /// The unique field square root, `a^(2^127)`: squaring is an automorphism
    /// of order 128, so this power squares back to `a`.
    pub fn sqrt(self) -> (r: F128Element)
        ensures
            r.0 == spec_fe_pow(self.0, SQRT_EXPONENT),
    {
        self.pow(SQRT_EXPONENT)
    }

    /// A uniformly sampled element: every 128-bit pattern is a valid element.
    /// Relies on rand::random, which returns a uniform `u128`; nothing can be
    /// promised of a random value.
    #[verifier::external_body]
    pub fn random() -> F128Element {
        F128Element(rand::random::<u128>())
    }
}

/// The big-endian value of the first `k` bytes of a block: the first byte is
/// the most significant.
pub open spec fn spec_be_value(s: Seq<u8>, k: int) -> int
    decreases k,
{
    if k <= 0 {
        0
    } else {
        spec_be_value(s, k - 1) * 256 + s[k - 1]
    }
}

/// 256^k, the number of values of a k-byte block.
pub open spec fn spec_block_span(k: int) -> int
    decreases k,
{
    if k <= 0 {
        1
    } else {
        256 * spec_block_span(k - 1)
    }
}

proof fn lemma_be_value_bound(s: Seq<u8>, k: int)
    requires
        0 <= k <= s.len(),
    ensures
        0 <= spec_be_value(s, k) < spec_block_span(k),
    decreases k,
{
    if k > 0 {
        lemma_be_value_bound(s, k - 1);
    }
}

impl F128Element {
    /// Deserialize a fixed 16-byte big-endian block; every 128-bit pattern is
    /// a valid element, so this is a total bijection with `to_block`.
    pub fn from_block(block: &[u8; 16]) -> (r: F128Element)
        ensures
            r.0 == spec_be_value(block@, 16),
    {
        let mut acc: u128 = 0;
        let mut i: usize = 0;
        while i < 16
            invariant
                i <= 16,
                acc == spec_be_value(block@, i as int),
            decreases 16 - i,
        {
            proof {
                lemma_be_value_bound(block@, i as int);
                reveal_with_fuel(spec_block_span, 17);
                assert(spec_block_span(i as int) <= spec_block_span(15)) by {
                    lemma_block_span_monotonic(i as int, 15);
                }
            }
            acc = acc * 256 + (block[i] as u128);
            i += 1;
        }
        F128Element(acc)
    }

    /// Serialize to a fixed 16-byte big-endian block: byte `i` holds the bits
    /// `8 * (15 - i)` and up.
    pub fn to_block(self) -> (r: Vec<u8>)
        ensures
            r@.len() == 16,
            forall|i: int| 0 <= i < 16 ==> r@[i] == ((self.0 >> (8 * (15 - i))) & 0xff) as u8,
    {
        let mut out: Vec<u8> = Vec::new();
        let mut i: usize = 0;
        while i < 16
            invariant
                i <= 16,
                out@.len() == i,
                forall|j: int| 0 <= j < i ==> out@[j] == ((self.0 >> (8 * (15 - j))) & 0xff) as u8,
            decreases 16 - i,
        {
            let shift: u32 = 8 * (15 - i as u32);
            out.push(((self.0 >> shift) & 0xff) as u8);
            i += 1;
        }
        out
    }
}

proof fn lemma_block_span_monotonic(a: int, b: int)
    requires
        0 <= a <= b,
    ensures
        spec_block_span(a) <= spec_block_span(b),
        spec_block_span(a) >= 1,
    decreases b,
{
    if a < b {
        lemma_block_span_monotonic(a, b - 1);
    } else if a > 0 {
        lemma_block_span_monotonic(a - 1, a - 1);
    }
}

/// Zero is the additive identity: xor with zero changes nothing.
pub proof fn lemma_xor_zero(x: u128)
    ensures
        x ^ 0 == x,
{
    assert(x ^ 0 == x) by (bit_vector);
}

/// One is a left identity of multiplication: the single set bit of the
/// multiplier contributes the other factor exactly once.
pub proof fn lemma_mul_one_left(v: u128)
    ensures
        spec_fe_mul(1, v) == v,
{
    assert(spec_mul_acc(1, v, 0) == spec_mul_acc(0, spec_xtime(v), 0 ^ v));
    assert(0 ^ v == v) by (bit_vector);
}

proof fn lemma_pow_acc_one(e: u128)
    ensures
        spec_pow_acc(1, 1, e) == 1,
    decreases e,
{
    if e != 0 {
        lemma_mul_one_left(1);
        lemma_pow_acc_one(e / 2);
    }
}

/// Every power of one is one; in particular the inverse of one is one.
pub proof fn lemma_pow_one(e: u128)
    ensures
        spec_fe_pow(1, e) == 1,
{
    lemma_pow_acc_one(e);
}

} // verus!
