//! Unbounded integers, held as a sign and base-2^32 digits, with arithmetic done by `num`.

use vstd::prelude::*;
use num::bigint::Sign;
use vstd::arithmetic::power2::{pow2, lemma_pow2_unfold, lemma_pow2_pos, lemma2_to64};
use vstd::arithmetic::div_mod::{lemma_fundamental_div_mod, lemma_fundamental_div_mod_converse};

verus! {

/// The value of a little-endian sequence of base-2^32 digits.
pub open spec fn digits_value(d: Seq<u32>) -> int
    decreases d.len(),
{
    if d.len() == 0 {
        0
    } else {
        d[0] as int + 0x1_0000_0000 * digits_value(d.drop_first())
    }
}

/// The size of an integer, used as a termination measure for the bitwise definitions.
pub open spec fn magnitude(a: int) -> nat {
    if a >= 0 {
        a as nat
    } else {
        (-a) as nat
    }
}

/// Bitwise AND of two integers read as infinite two's-complement bit strings.
pub open spec fn bit_and(a: int, b: int) -> int
    decreases magnitude(a) + magnitude(b),
{
    if (a == 0 || a == -1) && (b == 0 || b == -1) {
        if a == -1 && b == -1 {
            -1
        } else {
            0
        }
    } else {
        2 * bit_and(a / 2, b / 2) + (a % 2) * (b % 2)
    }
}

/// Bitwise OR of two integers read as infinite two's-complement bit strings.
pub open spec fn bit_or(a: int, b: int) -> int
    decreases magnitude(a) + magnitude(b),
{
    if (a == 0 || a == -1) && (b == 0 || b == -1) {
        if a == -1 || b == -1 {
            -1
        } else {
            0
        }
    } else {
        2 * bit_or(a / 2, b / 2) + (a % 2 + b % 2 - (a % 2) * (b % 2))
    }
}

/// Bitwise XOR of two integers read as infinite two's-complement bit strings.
pub open spec fn bit_xor(a: int, b: int) -> int
    decreases magnitude(a) + magnitude(b),
{
    if (a == 0 || a == -1) && (b == 0 || b == -1) {
        if (a == -1) != (b == -1) {
            -1
        } else {
            0
        }
    } else {
        2 * bit_xor(a / 2, b / 2) + (a % 2 + b % 2) % 2
    }
}

/// ANDing with zero gives zero.
pub proof fn lemma_and_zero(n: int)
    ensures
        bit_and(n, 0) == 0,
    decreases magnitude(n),
{
    if n != 0 && n != -1 {
        lemma_and_zero(n / 2);
        assert(0int % 2 == 0 && 0int / 2 == 0);
        assert((n % 2) * 0 == 0);
    }
}

/// Masking with `2^k - 1` keeps the residue modulo `2^k`.
pub proof fn lemma_and_low_mask(n: int, k: nat)
    ensures
        bit_and(n, pow2(k) - 1) == n % (pow2(k) as int),
    decreases k,
{
    lemma_pow2_pos(k);
    if k == 0 {
        lemma2_to64();
        lemma_and_zero(n);
    } else {
        lemma_pow2_unfold(k);
        lemma_pow2_pos((k - 1) as nat);
        let m: int = pow2((k - 1) as nat) as int;
        let mask: int = pow2(k) - 1;
        assert(mask == 2 * m - 1);
        assert(mask / 2 == m - 1 && mask % 2 == 1);
        lemma_and_low_mask(n / 2, (k - 1) as nat);
        let q = n / 2;
        let s = q % m;
        let t = q / m;
        lemma_fundamental_div_mod(n, 2);
        lemma_fundamental_div_mod(q, m);
        assert(0 <= s < m);
        assert(bit_and(n, mask) == 2 * s + n % 2);
        assert(n == (2 * m) * t + (2 * s + n % 2)) by (nonlinear_arith)
            requires
                n == 2 * q + n % 2,
                q == m * t + s,
        ;
        lemma_fundamental_div_mod_converse(n, 2 * m, t, 2 * s + n % 2);
    }
}

/// The bitwise operations keep nonnegative arguments nonnegative.
pub proof fn lemma_bitwise_nonneg(a: int, b: int)
    requires
        a >= 0,
        b >= 0,
    ensures
        bit_and(a, b) >= 0,
        bit_or(a, b) >= 0,
        bit_xor(a, b) >= 0,
    decreases magnitude(a) + magnitude(b),
{
    if !((a == 0 || a == -1) && (b == 0 || b == -1)) {
        lemma_bitwise_nonneg(a / 2, b / 2);
        let x = a % 2;
        let y = b % 2;
        assert(0 <= x < 2 && 0 <= y < 2);
        assert(x * y <= x) by (nonlinear_arith)
            requires
                0 <= x < 2,
                0 <= y < 2,
        ;
        assert(x * y >= 0) by (nonlinear_arith)
            requires
                0 <= x,
                0 <= y,
        ;
    }
}

/// The bitwise operations keep arguments below `2^k` below `2^k`.
pub proof fn lemma_bitwise_bounded(a: int, b: int, k: nat)
    requires
        0 <= a < pow2(k),
        0 <= b < pow2(k),
    ensures
        0 <= bit_and(a, b) < pow2(k),
        0 <= bit_or(a, b) < pow2(k),
        0 <= bit_xor(a, b) < pow2(k),
    decreases k,
{
    lemma_bitwise_nonneg(a, b);
    if k == 0 {
        lemma2_to64();
        assert(a == 0 && b == 0);
    } else if !(a == 0 && b == 0) {
        lemma_pow2_unfold(k);
        let m = pow2((k - 1) as nat) as int;
        assert(0 <= a / 2 < m && 0 <= b / 2 < m);
        lemma_bitwise_bounded(a / 2, b / 2, (k - 1) as nat);
        let x = a % 2;
        let y = b % 2;
        assert(x * y <= 1 && x * y >= 0) by (nonlinear_arith)
            requires
                0 <= x < 2,
                0 <= y < 2,
        ;
        assert(x * y <= x && x * y <= y && x + y - x * y <= 1) by (nonlinear_arith)
            requires
                0 <= x < 2,
                0 <= y < 2,
        ;
        assert(bit_or(a, b) == 2 * bit_or(a / 2, b / 2) + (x + y - x * y));
    }
}

/// An integer of unbounded size: a sign flag and a magnitude in base 2^32, least significant
/// digit first. Every representation denotes a value; the canonical one (see `wf`) has no
/// trailing zero digit and no negative zero.
#[derive(Debug)]
pub struct BigInt {
    /// Whether the value is negative.
    pub neg: bool,
    /// The digits of the absolute value.
    pub mag: Vec<u32>,
}

impl View for BigInt {
    type V = int;

    open spec fn view(&self) -> int {
        if self.neg {
            -digits_value(self.mag@)
        } else {
            digits_value(self.mag@)
        }
    }
}

impl BigInt {
    /// The representation is canonical.
    pub open spec fn wf(&self) -> bool {
        &&& self.mag@.len() > 0 ==> self.mag@.last() != 0
        &&& self.neg ==> self.mag@.len() > 0
    }

    /// The integer with the value of `v`.
    pub fn from_u64(v: u64) -> (r: BigInt)
        ensures
            r.wf(),
            !r.neg,
            r@ == v as int,
    {
        let lo = (v % 0x1_0000_0000) as u32;
        let hi = (v / 0x1_0000_0000) as u32;
        let mut mag: Vec<u32> = Vec::new();
        if hi != 0 {
            mag.push(lo);
            mag.push(hi);
        } else if lo != 0 {
            mag.push(lo);
        }
        proof {
            reveal_with_fuel(digits_value, 3);
            assert(mag@.len() >= 1 ==> mag@.drop_first().len() == mag@.len() - 1);
            if hi != 0 {
                assert(mag@.drop_first().drop_first().len() == 0);
            }
        }
        BigInt { neg: false, mag }
    }

    /// The integer with the value of `v`.
    pub fn from_i64(v: i64) -> (r: BigInt)
        ensures
            r.wf(),
            r@ == v as int,
    {
        if v < 0 {
            let m = (-(v as i128)) as u64;
            let r = BigInt::from_u64(m);
            assert(r.mag@.len() > 0) by {
                if r.mag@.len() == 0 {
                    assert(digits_value(r.mag@) == 0);
                }
            }
            BigInt { neg: true, mag: r.mag }
        } else {
            BigInt::from_u64(v as u64)
        }
    }

    /// A copy of this integer.
    pub fn copied(&self) -> (r: BigInt)
        ensures
            r.neg == self.neg,
            r.mag@ == self.mag@,
            r@ == self@,
    {
        let mut mag: Vec<u32> = Vec::new();
        let mut i: usize = 0;
        while i < self.mag.len()
            invariant
                i <= self.mag@.len(),
                mag@ == self.mag@.subrange(0, i as int),
            decreases self.mag@.len() - i,
        {
            mag.push(self.mag[i]);
            i += 1;
        }
        assert(mag@ == self.mag@);
        BigInt { neg: self.neg, mag }
    }

    /// The negation of this integer.
    pub fn negated(&self) -> (r: BigInt)
        ensures
            r@ == -self@,
            self.wf() ==> r.wf(),
    {
        let c = self.copied();
        if c.mag.len() == 0 {
            BigInt { neg: false, mag: c.mag }
        } else {
            BigInt { neg: !c.neg, mag: c.mag }
        }
    }
}

/// Relies on `num::BigInt`'s `Not`: the two's-complement complement, `-a - 1`.
#[verifier::external_body]
pub(crate) fn big_not(a: &BigInt) -> (r: BigInt)
    ensures
        r.wf(),
        r@ == -a@ - 1,
{
    let x = num::BigInt::from_slice(if a.neg { Sign::Minus } else { Sign::Plus }, &a.mag);
    let (s, mag) = (!x).to_u32_digits();
    BigInt { neg: s == Sign::Minus, mag }
}

/// Relies on `num::BigInt`'s `Add`: the exact sum.
#[verifier::external_body]
pub(crate) fn big_add(a: &BigInt, b: &BigInt) -> (r: BigInt)
    ensures
        r.wf(),
        r@ == a@ + b@,
{
    let x = num::BigInt::from_slice(if a.neg { Sign::Minus } else { Sign::Plus }, &a.mag);
    let y = num::BigInt::from_slice(if b.neg { Sign::Minus } else { Sign::Plus }, &b.mag);
    let (s, mag) = (x + y).to_u32_digits();
    BigInt { neg: s == Sign::Minus, mag }
}

/// Relies on `num::BigInt`'s `Sub`: the exact difference.
#[verifier::external_body]
pub(crate) fn big_sub(a: &BigInt, b: &BigInt) -> (r: BigInt)
    ensures
        r.wf(),
        r@ == a@ - b@,
{
    let x = num::BigInt::from_slice(if a.neg { Sign::Minus } else { Sign::Plus }, &a.mag);
    let y = num::BigInt::from_slice(if b.neg { Sign::Minus } else { Sign::Plus }, &b.mag);
    let (s, mag) = (x - y).to_u32_digits();
    BigInt { neg: s == Sign::Minus, mag }
}

/// Relies on `num::BigInt`'s `Mul`: the exact product.
#[verifier::external_body]
pub(crate) fn big_mul(a: &BigInt, b: &BigInt) -> (r: BigInt)
    ensures
        r.wf(),
        r@ == a@ * b@,
{
    let x = num::BigInt::from_slice(if a.neg { Sign::Minus } else { Sign::Plus }, &a.mag);
    let y = num::BigInt::from_slice(if b.neg { Sign::Minus } else { Sign::Plus }, &b.mag);
    let (s, mag) = (x * y).to_u32_digits();
    BigInt { neg: s == Sign::Minus, mag }
}

/// Relies on `num::BigInt`'s `BitAnd`, which works on the two's-complement bits.
#[verifier::external_body]
pub(crate) fn big_and(a: &BigInt, b: &BigInt) -> (r: BigInt)
    ensures
        r.wf(),
        r@ == bit_and(a@, b@),
{
    let x = num::BigInt::from_slice(if a.neg { Sign::Minus } else { Sign::Plus }, &a.mag);
    let y = num::BigInt::from_slice(if b.neg { Sign::Minus } else { Sign::Plus }, &b.mag);
    let (s, mag) = (x & y).to_u32_digits();
    BigInt { neg: s == Sign::Minus, mag }
}

/// Relies on `num::BigInt`'s `BitOr`, which works on the two's-complement bits.
#[verifier::external_body]
pub(crate) fn big_or(a: &BigInt, b: &BigInt) -> (r: BigInt)
    ensures
        r.wf(),
        r@ == bit_or(a@, b@),
{
    let x = num::BigInt::from_slice(if a.neg { Sign::Minus } else { Sign::Plus }, &a.mag);
    let y = num::BigInt::from_slice(if b.neg { Sign::Minus } else { Sign::Plus }, &b.mag);
    let (s, mag) = (x | y).to_u32_digits();
    BigInt { neg: s == Sign::Minus, mag }
}

/// Relies on `num::BigInt`'s `BitXor`, which works on the two's-complement bits.
#[verifier::external_body]
pub(crate) fn big_xor(a: &BigInt, b: &BigInt) -> (r: BigInt)
    ensures
        r.wf(),
        r@ == bit_xor(a@, b@),
{
    let x = num::BigInt::from_slice(if a.neg { Sign::Minus } else { Sign::Plus }, &a.mag);
    let y = num::BigInt::from_slice(if b.neg { Sign::Minus } else { Sign::Plus }, &b.mag);
    let (s, mag) = (x ^ y).to_u32_digits();
    BigInt { neg: s == Sign::Minus, mag }
}

/// Relies on `num::BigInt`'s `Shl<usize>`: multiplication by `2^k`.
#[verifier::external_body]
pub(crate) fn big_shl(a: &BigInt, k: usize) -> (r: BigInt)
    ensures
        r.wf(),
        r@ == a@ * pow2(k as nat),
{
    let x = num::BigInt::from_slice(if a.neg { Sign::Minus } else { Sign::Plus }, &a.mag);
    let (s, mag) = (x << k).to_u32_digits();
    BigInt { neg: s == Sign::Minus, mag }
}

/// Relies on `num::BigInt`'s `Shr<usize>`: division by `2^k`, rounding down.
#[verifier::external_body]
pub(crate) fn big_shr(a: &BigInt, k: usize) -> (r: BigInt)
    ensures
        r.wf(),
        r@ == a@ / (pow2(k as nat) as int),
{
    let x = num::BigInt::from_slice(if a.neg { Sign::Minus } else { Sign::Plus }, &a.mag);
    let (s, mag) = (x >> k).to_u32_digits();
    BigInt { neg: s == Sign::Minus, mag }
}

/// Relies on `num::BigInt`'s `Ord`: the order of the values.
#[verifier::external_body]
pub(crate) fn big_cmp(a: &BigInt, b: &BigInt) -> (r: std::cmp::Ordering)
    ensures
        (r == std::cmp::Ordering::Less) == (a@ < b@),
        (r == std::cmp::Ordering::Equal) == (a@ == b@),
        (r == std::cmp::Ordering::Greater) == (a@ > b@),
{
    let x = num::BigInt::from_slice(if a.neg { Sign::Minus } else { Sign::Plus }, &a.mag);
    let y = num::BigInt::from_slice(if b.neg { Sign::Minus } else { Sign::Plus }, &b.mag);
    x.cmp(&y)
}

/// Relies on `TryFrom<&num::BigInt> for u64`: succeeds exactly on the values of `u64`.
#[verifier::external_body]
pub(crate) fn big_to_u64(a: &BigInt) -> (r: Option<u64>)
    ensures
        r is Some <==> 0 <= a@ <= u64::MAX,
        r matches Some(v) ==> v as int == a@,
{
    let x = num::BigInt::from_slice(if a.neg { Sign::Minus } else { Sign::Plus }, &a.mag);
    u64::try_from(&x).ok()
}

/// Relies on `TryFrom<&num::BigInt> for i64`: succeeds exactly on the values of `i64`.
#[verifier::external_body]
pub(crate) fn big_to_i64(a: &BigInt) -> (r: Option<i64>)
    ensures
        r is Some <==> i64::MIN <= a@ <= i64::MAX,
        r matches Some(v) ==> v as int == a@,
{
    let x = num::BigInt::from_slice(if a.neg { Sign::Minus } else { Sign::Plus }, &a.mag);
    i64::try_from(&x).ok()
}

/// Relies on `TryFrom<&num::BigInt> for usize`: succeeds exactly on the values of `usize`.
#[verifier::external_body]
pub(crate) fn big_to_usize(a: &BigInt) -> (r: Option<usize>)
    ensures
        r is Some <==> 0 <= a@ <= usize::MAX,
        r matches Some(v) ==> v as int == a@,
{
    let x = num::BigInt::from_slice(if a.neg { Sign::Minus } else { Sign::Plus }, &a.mag);
    usize::try_from(&x).ok()
}

} // verus!
