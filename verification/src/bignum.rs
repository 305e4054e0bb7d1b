//! Arbitrary-precision integers. The arithmetic itself is `num-bigint`'s; this
//! module says what each operation that the crate uses returns. None of these
//! statements is proved here: they restate the documentation and source of
//! `num-bigint`, `num-integer` and `num-iter`.

use vstd::prelude::*;
use vstd::arithmetic::power::pow;
use vstd::arithmetic::power2::pow2;
use num_bigint::{BigInt, BigUint, ParseBigIntError};
use num_bigint::{ToBigInt, ToBigUint};
use num_traits::Num;
use crate::numbers::{
    be_bytes, be_value, bit_length, is_gcd, is_lcm, nat_or, parse_radix, radix_digits, trunc_div,
    trunc_rem,
};

verus! {

/// `num-bigint`'s unsigned integer of any size.
#[verifier::external_type_specification]
#[verifier::external_body]
pub struct ExBigUint(num_bigint::BigUint);

/// `num-bigint`'s signed integer of any size.
#[verifier::external_type_specification]
#[verifier::external_body]
pub struct ExBigInt(num_bigint::BigInt);

/// `num-bigint`'s error for a text that denotes no number.
#[verifier::external_type_specification]
#[verifier::external_body]
pub struct ExParseBigIntError(num_bigint::ParseBigIntError);

/// `num-iter`'s iterator over a range with both ends included.
#[verifier::external_type_specification]
#[verifier::external_body]
#[verifier::reject_recursive_types(A)]
pub struct ExRangeInclusive<A>(num_iter::RangeInclusive<A>);

/// The natural number that a `BigUint` holds.
pub uninterp spec fn biguint_value(b: BigUint) -> nat;

/// The integer that a `BigInt` holds.
pub uninterp spec fn bigint_value(b: BigInt) -> int;

/// The numbers that a `num_iter::RangeInclusive<BigUint>` has yet to yield, in order.
pub uninterp spec fn range_pending(r: num_iter::RangeInclusive<BigUint>) -> Seq<nat>;

/// `BigUint::from(u64)`: the same number.
#[verifier::external_body]
pub(crate) fn biguint_from_u64(v: u64) -> (r: BigUint)
    ensures
        biguint_value(r) == v,
{
    BigUint::from(v)
}

/// `BigUint::clone`: a copy that holds the same number.
pub assume_specification[ <num_bigint::BigUint as Clone>::clone ](a: &num_bigint::BigUint) -> (r:
    num_bigint::BigUint)
    ensures
        biguint_value(r) == biguint_value(*a),
;

/// `BigInt::clone`: a copy that holds the same number.
pub assume_specification[ <num_bigint::BigInt as Clone>::clone ](a: &num_bigint::BigInt) -> (r:
    num_bigint::BigInt)
    ensures
        bigint_value(r) == bigint_value(*a),
;

/// `BigUint == BigUint`: whether the two hold the same number.
#[verifier::external_body]
pub(crate) fn biguint_eq(a: &BigUint, b: &BigUint) -> (r: bool)
    ensures
        r == (biguint_value(*a) == biguint_value(*b)),
{
    a == b
}

/// `BigUint < BigUint`: the order of the numbers.
#[verifier::external_body]
pub(crate) fn biguint_lt(a: &BigUint, b: &BigUint) -> (r: bool)
    ensures
        r == (biguint_value(*a) < biguint_value(*b)),
{
    a < b
}

/// `&BigUint - &BigUint`: the difference. The outside operator panics when
/// the result would be negative, so that is excluded.
#[verifier::external_body]
pub(crate) fn biguint_sub(a: &BigUint, b: &BigUint) -> (r: BigUint)
    requires
        biguint_value(*a) >= biguint_value(*b),
    ensures
        biguint_value(r) == biguint_value(*a) - biguint_value(*b),
{
    a - b
}

/// `&BigUint * &BigUint`: the product.
#[verifier::external_body]
pub(crate) fn biguint_mul(a: &BigUint, b: &BigUint) -> (r: BigUint)
    ensures
        biguint_value(r) == biguint_value(*a) * biguint_value(*b),
{
    a * b
}

/// `&BigUint / &BigUint`: the quotient, rounded down. Division by zero
/// panics outside and is excluded.
#[verifier::external_body]
pub(crate) fn biguint_div(a: &BigUint, b: &BigUint) -> (r: BigUint)
    requires
        biguint_value(*b) != 0,
    ensures
        biguint_value(r) == biguint_value(*a) / biguint_value(*b),
{
    a / b
}

/// `&BigUint % &BigUint`: the remainder. Division by zero panics outside
/// and is excluded.
#[verifier::external_body]
pub(crate) fn biguint_rem(a: &BigUint, b: &BigUint) -> (r: BigUint)
    requires
        biguint_value(*b) != 0,
    ensures
        biguint_value(r) == biguint_value(*a) % biguint_value(*b),
{
    a % b
}

/// `BigUint << usize`: the number times two to the power of the shift. The
/// shift is held to 16 bits here, so that the result always fits in memory.
#[verifier::external_body]
pub(crate) fn biguint_shl(a: BigUint, bits: u16) -> (r: BigUint)
    ensures
        biguint_value(r) == biguint_value(a) * pow2(bits as nat),
{
    a << usize::from(bits)
}

/// `BigUint | BigUint`: the bitwise "or" of the two numbers.
#[verifier::external_body]
pub(crate) fn biguint_bitor(a: BigUint, b: BigUint) -> (r: BigUint)
    ensures
        biguint_value(r) == nat_or(biguint_value(a), biguint_value(b)),
{
    a | b
}

/// `BigUint::modpow`: `base` to the power `exponent`, reduced modulo
/// `modulus`. A zero modulus panics outside and is excluded.
#[verifier::external_body]
pub(crate) fn biguint_modpow(base: &BigUint, exponent: &BigUint, modulus: &BigUint) -> (r: BigUint)
    requires
        biguint_value(*modulus) != 0,
    ensures
        biguint_value(r) == pow(biguint_value(*base) as int, biguint_value(*exponent)) % (
        biguint_value(*modulus) as int),
{
    base.modpow(exponent, modulus)
}

/// `BigUint::sqrt`: the square root rounded down.
#[verifier::external_body]
pub(crate) fn biguint_sqrt(a: &BigUint) -> (r: BigUint)
    ensures
        biguint_value(r) * biguint_value(r) <= biguint_value(*a),
        biguint_value(*a) < (biguint_value(r) + 1) * (biguint_value(r) + 1),
{
    a.sqrt()
}

/// `BigUint::bits`: the fewest bits that can express the number.
#[verifier::external_body]
pub(crate) fn biguint_bits(a: &BigUint) -> (r: u64)
    ensures
        r == bit_length(biguint_value(*a)),
{
    a.bits()
}

/// `BigUint::from_bytes_be`: the number that the bytes denote, most
/// significant byte first.
#[verifier::external_body]
pub(crate) fn biguint_from_bytes_be(bytes: &[u8]) -> (r: BigUint)
    ensures
        biguint_value(r) == be_value(bytes@),
{
    BigUint::from_bytes_be(bytes)
}

/// `BigUint::to_bytes_be`: the shortest byte string for the number, most
/// significant byte first; one zero byte for 0.
#[verifier::external_body]
pub(crate) fn biguint_to_bytes_be(a: &BigUint) -> (r: Vec<u8>)
    ensures
        r@ == be_bytes(biguint_value(*a)),
{
    a.to_bytes_be()
}

/// `BigUint::to_bytes_le`: the same bytes as `to_bytes_be`, least
/// significant byte first.
#[verifier::external_body]
pub(crate) fn biguint_to_bytes_le(a: &BigUint) -> (r: Vec<u8>)
    ensures
        r@ == be_bytes(biguint_value(*a)).reverse(),
{
    a.to_bytes_le()
}

/// `<BigUint as Num>::from_str_radix`: the number that the text denotes in
/// the radix, or an error where it denotes none. A radix outside 2..=36
/// panics outside and is excluded.
#[verifier::external_body]
pub(crate) fn biguint_from_str_radix(s: &str, radix: u32) -> (r: Result<BigUint, ParseBigIntError>)
    requires
        2 <= radix <= 36,
    ensures
        match r {
            Ok(v) => parse_radix(s@, radix as nat) == Some(biguint_value(v)),
            Err(_) => parse_radix(s@, radix as nat) is None,
        },
{
    BigUint::from_str_radix(s, radix)
}

/// `BigUint::to_str_radix`: the digits of the number in the radix, lower
/// case, no leading zero. A radix outside 2..=36 panics outside and is
/// excluded.
#[verifier::external_body]
pub(crate) fn biguint_to_str_radix(a: &BigUint, radix: u32) -> (r: String)
    requires
        2 <= radix <= 36,
    ensures
        r@ == radix_digits(biguint_value(*a), radix as nat),
{
    a.to_str_radix(radix)
}

/// `num_integer::lcm` on `BigUint`: the least common multiple.
#[verifier::external_body]
pub(crate) fn biguint_lcm(a: BigUint, b: BigUint) -> (r: BigUint)
    ensures
        is_lcm(biguint_value(r), biguint_value(a), biguint_value(b)),
{
    num_integer::lcm(a, b)
}

/// `ToBigInt::to_bigint` on a `BigUint`: the same number, signed. The
/// outside function never returns `None` here.
#[verifier::external_body]
pub(crate) fn biguint_to_bigint(a: &BigUint) -> (r: Option<BigInt>)
    ensures
        r is Some,
        bigint_value(r->0) == biguint_value(*a),
{
    a.to_bigint()
}

/// `ToBigUint::to_biguint` on a `BigInt`: the same number where it is not
/// negative, else `None`.
#[verifier::external_body]
pub(crate) fn bigint_to_biguint(a: &BigInt) -> (r: Option<BigUint>)
    ensures
        match r {
            Some(v) => bigint_value(*a) >= 0 && biguint_value(v) == bigint_value(*a),
            None => bigint_value(*a) < 0,
        },
{
    a.to_biguint()
}

/// `BigInt::from(i64)`: the same number.
#[verifier::external_body]
pub(crate) fn bigint_from_i64(v: i64) -> (r: BigInt)
    ensures
        bigint_value(r) == v,
{
    BigInt::from(v)
}

/// `BigInt == BigInt`: whether the two hold the same number.
#[verifier::external_body]
pub(crate) fn bigint_eq(a: &BigInt, b: &BigInt) -> (r: bool)
    ensures
        r == (bigint_value(*a) == bigint_value(*b)),
{
    a == b
}

/// `&BigInt + &BigInt`: the sum.
#[verifier::external_body]
pub(crate) fn bigint_add(a: &BigInt, b: &BigInt) -> (r: BigInt)
    ensures
        bigint_value(r) == bigint_value(*a) + bigint_value(*b),
{
    a + b
}

/// `&BigInt - &BigInt`: the difference.
#[verifier::external_body]
pub(crate) fn bigint_sub(a: &BigInt, b: &BigInt) -> (r: BigInt)
    ensures
        bigint_value(r) == bigint_value(*a) - bigint_value(*b),
{
    a - b
}

/// `&BigInt * &BigInt`: the product.
#[verifier::external_body]
pub(crate) fn bigint_mul(a: &BigInt, b: &BigInt) -> (r: BigInt)
    ensures
        bigint_value(r) == bigint_value(*a) * bigint_value(*b),
{
    a * b
}

/// `&BigInt / &BigInt`: the quotient rounded toward zero. Division by zero
/// panics outside and is excluded.
#[verifier::external_body]
pub(crate) fn bigint_div(a: &BigInt, b: &BigInt) -> (r: BigInt)
    requires
        bigint_value(*b) != 0,
    ensures
        bigint_value(r) == trunc_div(bigint_value(*a), bigint_value(*b)),
{
    a / b
}

/// `&BigInt % &BigInt`: the remainder of the division rounded toward zero.
/// Division by zero panics outside and is excluded.
#[verifier::external_body]
pub(crate) fn bigint_rem(a: &BigInt, b: &BigInt) -> (r: BigInt)
    requires
        bigint_value(*b) != 0,
    ensures
        bigint_value(r) == trunc_rem(bigint_value(*a), bigint_value(*b)),
{
    a % b
}

/// `num::integer::gcd` on `BigInt`: the greatest common divisor, never negative.
#[verifier::external_body]
pub(crate) fn bigint_gcd(a: BigInt, b: BigInt) -> (r: BigInt)
    ensures
        is_gcd(bigint_value(r), bigint_value(a), bigint_value(b)),
{
    num::integer::gcd(a, b)
}

/// `num_iter::range_inclusive` on `BigUint`: an iterator over the numbers
/// from `start` to `stop`, both included, in rising order; over none when
/// `start` is above `stop`.
#[verifier::external_body]
pub(crate) fn biguint_range_inclusive(start: BigUint, stop: BigUint) -> (r: num_iter::RangeInclusive<
    BigUint,
>)
    ensures
        range_pending(r) == Seq::new(
            if biguint_value(start) <= biguint_value(stop) {
                (biguint_value(stop) - biguint_value(start) + 1) as nat
            } else {
                0nat
            },
            |i: int| (biguint_value(start) + i) as nat,
        ),
{
    num_iter::range_inclusive(start, stop)
}

/// `Iterator::next` on a `num_iter::RangeInclusive<BigUint>`: hands out the
/// first pending number, or `None` when none is left.
#[verifier::external_body]
pub(crate) fn biguint_range_next(it: &mut num_iter::RangeInclusive<BigUint>) -> (r: Option<BigUint>)
    ensures
        match r {
            Some(v) => {
                &&& range_pending(*old(it)).len() > 0
                &&& biguint_value(v) == range_pending(*old(it))[0]
                &&& range_pending(*final(it)) == range_pending(*old(it)).drop_first()
            },
            None => range_pending(*old(it)).len() == 0 && range_pending(*final(it)).len() == 0,
        },
{
    it.next()
}

} // verus!
