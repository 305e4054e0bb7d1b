//! Random values. They come from `rand`'s thread-local generator; nothing is
//! known of a draw beyond its type, and of a draw from a range that it lies in
//! the range.

use vstd::prelude::*;
use num_bigint::BigUint;
use rand::Rng;
use crate::bignum::biguint_value;

verus! {

/// `rand::random::<bool>()`: a coin toss.
#[verifier::external_body]
pub(crate) fn random_bool() -> bool {
    rand::random::<bool>()
}

/// `rand::random::<u8>()`: a random byte.
#[verifier::external_body]
pub(crate) fn random_byte() -> u8 {
    rand::random::<u8>()
}

/// `Rng::gen_range` on `BigUint`, with the thread-local generator: a number
/// from `low` up to, and not including, `high`. An empty range panics
/// outside and is excluded.
#[verifier::external_body]
pub(crate) fn random_biguint_range(low: &BigUint, high: &BigUint) -> (r: BigUint)
    requires
        biguint_value(*low) < biguint_value(*high),
    ensures
        biguint_value(*low) <= biguint_value(r) < biguint_value(*high),
{
    rand::thread_rng().gen_range(low, high)
}

} // verus!
