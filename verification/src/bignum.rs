//! Arbitrary precision integers as they appear in Solidity literals and array
//! dimensions. The value is kept as a sign and base 2^32 digits (least
//! significant first); arithmetic that needs more than digit shuffling is done
//! by `num_bigint`.
use num_bigint::{BigInt, Sign};
use num_traits::{Num, ToPrimitive};
use crate::output::push_char;
use vstd::prelude::*;

verus! {

/// Base of one digit.
pub open spec fn digit_base() -> int {
    4294967296
}

/// Value of a little-endian sequence of base 2^32 digits.
pub open spec fn digits_value(s: Seq<u32>) -> nat
    decreases s.len(),
{
    if s.len() == 0 {
        0
    } else {
        (s[0] + digit_base() * digits_value(s.drop_first())) as nat
    }
}

/// Number of bits needed to write `n` in binary.
pub open spec fn bit_length(n: nat) -> nat
    decreases n,
{
    if n == 0 {
        0
    } else {
        1 + bit_length(n / 2)
    }
}

/// The character of a decimal digit.
pub open spec fn digit_char(d: nat) -> char {
    if d == 0 { '0' }
    else if d == 1 { '1' }
    else if d == 2 { '2' }
    else if d == 3 { '3' }
    else if d == 4 { '4' }
    else if d == 5 { '5' }
    else if d == 6 { '6' }
    else if d == 7 { '7' }
    else if d == 8 { '8' }
    else { '9' }
}

/// Decimal representation of a natural number, without leading zeros.
pub open spec fn nat_decimal(n: nat) -> Seq<char>
    decreases n,
{
    if n < 10 {
        seq![digit_char(n)]
    } else {
        nat_decimal(n / 10).push(digit_char(n % 10))
    }
}

/// Decimal representation of an integer, with a leading `-` when negative.
pub open spec fn int_decimal(v: int) -> Seq<char> {
    if v < 0 {
        seq!['-'] + nat_decimal((-v) as nat)
    } else {
        nat_decimal(v as nat)
    }
}

/// The value of a hexadecimal digit character, if it is one.
pub open spec fn hex_digit_value(c: char) -> Option<nat> {
    if '0' <= c && c <= '9' {
        Some((c as int - '0' as int) as nat)
    } else if 'a' <= c && c <= 'f' {
        Some((c as int - 'a' as int + 10) as nat)
    } else if 'A' <= c && c <= 'F' {
        Some((c as int - 'A' as int + 10) as nat)
    } else {
        None
    }
}

/// All characters are hexadecimal digits.
pub open spec fn all_hex_digits(s: Seq<char>) -> bool {
    forall|i: int| 0 <= i < s.len() ==> (#[trigger] hex_digit_value(s[i])) is Some
}

/// Value of a sequence of hexadecimal digits, most significant first.
pub open spec fn hex_value(s: Seq<char>) -> nat
    decreases s.len(),
{
    if s.len() == 0 {
        0
    } else {
        (hex_value(s.drop_last()) * 16 + hex_digit_value(s.last()).unwrap_or(0)) as nat
    }
}

/// An arbitrary precision signed integer.
#[derive(Debug)]
pub struct BigNum {
    pub negative: bool,
    pub digits: Vec<u32>,
}

impl View for BigNum {
    type V = int;

    open spec fn view(&self) -> int {
        if self.negative {
            -digits_value(self.digits@)
        } else {
            digits_value(self.digits@) as int
        }
    }
}

impl BigNum {
    /// Canonical form: no most significant zero digit, and zero is not negative.
    pub open spec fn wf(&self) -> bool {
        &&& (self.digits@.len() == 0 ==> !self.negative)
        &&& (self.digits@.len() > 0 ==> self.digits@.last() != 0)
    }

    /// The number zero.
    pub fn zero() -> (r: BigNum)
        ensures
            r.wf(),
            r@ == 0,
    {
        BigNum { negative: false, digits: Vec::new() }
    }

    /// The number given by a machine integer.
    pub fn from_u64(v: u64) -> (r: BigNum)
        ensures
            r.wf(),
            r@ == v,
    {
        let lo = (v % 4294967296) as u32;
        let hi = (v / 4294967296) as u32;
        let mut digits = Vec::new();
        if v == 0 {
            assert(digits@ =~= Seq::<u32>::empty());
        } else if hi == 0 {
            digits.push(lo);
            proof { lemma_digits_bound(digits@); }
        } else {
            digits.push(lo);
            digits.push(hi);
            proof { lemma_digits_bound(digits@); }
        }
        BigNum { negative: false, digits }
    }

    /// A copy with the same value.
    pub fn duplicate(&self) -> (r: BigNum)
        ensures
            r@ == self@,
            r.negative == self.negative,
            r.digits@ == self.digits@,
            self.wf() ==> r.wf(),
    {
        let digits = self.digits.clone();
        assert(digits@ =~= self.digits@);
        BigNum { negative: self.negative, digits }
    }
}

/// A non-empty canonical digit sequence has a positive value.
pub proof fn lemma_digits_positive(s: Seq<u32>)
    ensures
        s.len() > 0 && s.last() != 0 ==> digits_value(s) > 0,
        s.len() == 0 ==> digits_value(s) == 0,
    decreases s.len(),
{
    if s.len() > 1 {
        assert(s.drop_first().last() == s.last());
        lemma_digits_positive(s.drop_first());
    }
}

/// One or two digits fit a `u64`.
proof fn lemma_digits_bound(s: Seq<u32>)
    ensures
        s.len() == 1 ==> digits_value(s) == s[0],
        s.len() == 2 ==> digits_value(s) == s[0] + digit_base() * s[1],
        s.len() <= 2 ==> digits_value(s) <= u64::MAX,
{
    if s.len() == 1 {
        assert(s.drop_first() =~= Seq::<u32>::empty());
        assert(digits_value(s.drop_first()) == 0);
    } else if s.len() == 2 {
        let t = s.drop_first();
        assert(t.drop_first() =~= Seq::<u32>::empty());
        assert(digits_value(t.drop_first()) == 0);
        assert(digits_value(t) == s[1]);
        let a = s[0] as int;
        let b = s[1] as int;
        assert(a + 4294967296 * b <= u64::MAX) by (nonlinear_arith)
            requires
                0 <= a < 4294967296,
                0 <= b < 4294967296,
        ;
    }
}

/// Product of two numbers; `num_bigint`'s `BigInt` multiplication.
#[verifier::external_body]
pub fn big_mul(a: &BigNum, b: &BigNum) -> (r: BigNum)
    ensures
        r.wf(),
        r@ == a@ * b@,
{
    let x = BigInt::new(if a.negative { Sign::Minus } else { Sign::Plus }, a.digits.clone());
    let y = BigInt::new(if b.negative { Sign::Minus } else { Sign::Plus }, b.digits.clone());
    let (sign, digits) = (x * y).to_u32_digits();
    BigNum { negative: sign == Sign::Minus, digits }
}

/// Sum of two numbers; `num_bigint`'s `BigInt` addition.
#[verifier::external_body]
pub fn big_add(a: &BigNum, b: &BigNum) -> (r: BigNum)
    ensures
        r.wf(),
        r@ == a@ + b@,
{
    let x = BigInt::new(if a.negative { Sign::Minus } else { Sign::Plus }, a.digits.clone());
    let y = BigInt::new(if b.negative { Sign::Minus } else { Sign::Plus }, b.digits.clone());
    let (sign, digits) = (x + y).to_u32_digits();
    BigNum { negative: sign == Sign::Minus, digits }
}

/// Number of bits of the magnitude; `num_bigint`'s `BigInt::bits`.
#[verifier::external_body]
pub fn big_bits(a: &BigNum) -> (r: u64)
    ensures
        r == bit_length(abs_int(a@)),
{
    BigInt::new(if a.negative { Sign::Minus } else { Sign::Plus }, a.digits.clone()).bits()
}

/// Magnitude of an integer.
pub open spec fn abs_int(v: int) -> nat {
    if v < 0 { (-v) as nat } else { v as nat }
}

/// Numeric comparison `a > b`; `num_bigint`'s `BigInt` ordering.
#[verifier::external_body]
pub fn big_greater(a: &BigNum, b: &BigNum) -> (r: bool)
    ensures
        r == (a@ > b@),
{
    let x = BigInt::new(if a.negative { Sign::Minus } else { Sign::Plus }, a.digits.clone());
    let y = BigInt::new(if b.negative { Sign::Minus } else { Sign::Plus }, b.digits.clone());
    x > y
}

/// Numeric equality; `num_bigint`'s `BigInt` equality.
#[verifier::external_body]
pub fn big_equal(a: &BigNum, b: &BigNum) -> (r: bool)
    ensures
        r == (a@ == b@),
{
    let x = BigInt::new(if a.negative { Sign::Minus } else { Sign::Plus }, a.digits.clone());
    let y = BigInt::new(if b.negative { Sign::Minus } else { Sign::Plus }, b.digits.clone());
    x == y
}

/// Decimal text of a number; `num_bigint`'s `BigInt::to_str_radix` with radix 10.
#[verifier::external_body]
pub fn big_to_decimal(a: &BigNum) -> (r: String)
    ensures
        r@ == int_decimal(a@),
{
    BigInt::new(if a.negative { Sign::Minus } else { Sign::Plus }, a.digits.clone()).to_str_radix(10)
}

/// Parse hexadecimal digits; `num_bigint`'s `BigInt::from_str_radix` with radix 16.
#[verifier::external_body]
pub fn big_from_hex(s: &str) -> (r: Option<BigNum>)
    ensures
        (s@.len() > 0 && all_hex_digits(s@)) ==> (r is Some && r.unwrap().wf() && r.unwrap()@ == hex_value(s@)),
{
    match BigInt::from_str_radix(s, 16) {
        Ok(n) => {
            let (sign, digits) = n.to_u32_digits();
            Some(BigNum { negative: sign == Sign::Minus, digits })
        }
        Err(_) => None,
    }
}

/// A digit sequence has the value zero exactly where every digit is zero.
proof fn lemma_digits_zero(s: Seq<u32>)
    ensures
        (digits_value(s) == 0) == (forall|i: int| 0 <= i < s.len() ==> #[trigger] s[i] == 0),
    decreases s.len(),
{
    if s.len() > 0 {
        let t = s.drop_first();
        lemma_digits_zero(t);
        if forall|i: int| 0 <= i < s.len() ==> #[trigger] s[i] == 0 {
            assert forall|i: int| 0 <= i < t.len() implies #[trigger] t[i] == 0 by {
                assert(t[i] == s[i + 1]);
            }
        }
        if digits_value(s) == 0 {
            assert forall|i: int| 0 <= i < s.len() implies #[trigger] s[i] == 0 by {
                if i > 0 {
                    assert(s[i] == t[i - 1]);
                }
            }
        }
    }
}

/// Is the value zero: are all digits zero?
pub fn big_is_zero(a: &BigNum) -> (r: bool)
    ensures
        r == (a@ == 0),
{
    proof { lemma_digits_zero(a.digits@); }
    let mut i: usize = 0;
    while i < a.digits.len()
        invariant
            0 <= i <= a.digits@.len(),
            forall|j: int| 0 <= j < i ==> #[trigger] a.digits@[j] == 0,
            (digits_value(a.digits@) == 0) == (forall|j: int| 0 <= j < a.digits@.len() ==> #[trigger] a.digits@[j] == 0),
        decreases a.digits@.len() - i,
    {
        if a.digits[i] != 0 {
            return false;
        }
        i += 1;
    }
    true
}

/// Is the value below zero: is the sign negative and some digit not zero?
pub fn big_is_negative(a: &BigNum) -> (r: bool)
    ensures
        r == (a@ < 0),
{
    a.negative && !big_is_zero(a)
}

/// The value as a `u64` where it fits; `num_traits`' `ToPrimitive::to_u64` on `BigInt`.
#[verifier::external_body]
pub fn big_to_u64(a: &BigNum) -> (r: Option<u64>)
    ensures
        r matches Some(v) ==> v == a@,
        r is None <==> (a@ < 0 || a@ > u64::MAX),
{
    BigInt::new(if a.negative { Sign::Minus } else { Sign::Plus }, a.digits.clone()).to_u64()
}

/// The character of a decimal digit.
fn digit(d: u64) -> (c: char)
    requires
        d < 10,
    ensures
        c == digit_char(d as nat),
{
    if d == 0 { '0' }
    else if d == 1 { '1' }
    else if d == 2 { '2' }
    else if d == 3 { '3' }
    else if d == 4 { '4' }
    else if d == 5 { '5' }
    else if d == 6 { '6' }
    else if d == 7 { '7' }
    else if d == 8 { '8' }
    else { '9' }
}

/// Decimal text of a machine integer.
pub fn u64_to_decimal(n: u64) -> (r: String)
    ensures
        r@ == nat_decimal(n as nat),
    decreases n,
{
    if n < 10 {
        let mut s = String::new();
        push_char(&mut s, digit(n));
        assert(s@ =~= seq![digit_char(n as nat)]);
        s
    } else {
        let mut s = u64_to_decimal(n / 10);
        push_char(&mut s, digit(n % 10));
        s
    }
}

} // verus!
