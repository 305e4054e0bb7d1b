//! RSA key generation: candidate primes from coin tosses, the Miller-Rabin
//! test, the extended Euclidean algorithm and the modular inverse.

use vstd::prelude::*;
use vstd::arithmetic::div_mod::{
    lemma_fundamental_div_mod, lemma_mod_bound, lemma_mod_multiples_vanish,
    lemma_mul_mod_noop_right, lemma_small_mod,
};
use vstd::arithmetic::power::{lemma_pow_mod_noop, lemma_pow_multiplies, pow};
use vstd::arithmetic::power2::pow2;
use num_bigint::{BigInt, BigUint};
use crate::bignum::{
    bigint_add, bigint_div, bigint_eq, bigint_from_i64, bigint_gcd, bigint_mul, bigint_rem,
    bigint_sub, bigint_to_biguint, bigint_value, biguint_bitor, biguint_bits, biguint_div,
    biguint_eq, biguint_from_u64, biguint_lcm, biguint_lt, biguint_modpow, biguint_mul,
    biguint_range_inclusive, biguint_range_next, biguint_rem, biguint_shl, biguint_sqrt,
    biguint_sub, biguint_to_bigint, biguint_value, range_pending,
};
use crate::encryption::rsa::RSAKeys;
use crate::entropy::{random_biguint_range, random_bool};
use crate::number_theory::{lemma_euclid, lemma_fermat, lemma_multiple_divides};
use crate::numbers::{
    bit_length, divides, is_gcd, is_lcm, is_prime_number, lemma_divisor_le, lemma_gcd_of_zero,
    lemma_gcd_step, lemma_gcd_unique, nat_or, trunc_div, trunc_rem,
};

verus! {

/// The coefficients that the extended Euclidean algorithm finds for `a` and
/// `b`: 0 and 1 where `a` is 0; else, with `(x, y)` those for `b % a` and `a`,
/// `y - (b / a) * x` and `x`.
pub open spec fn bezout_coefficients(a: int, b: int) -> (int, int)
    decreases a,
{
    if a <= 0 {
        (0, 1)
    } else {
        proof {
            lemma_mod_bound(b, a);
        }
        let (x, y) = bezout_coefficients(b % a, a);
        (y - (b / a) * x, x)
    }
}

/// The extended Euclidean algorithm on two numbers that are not negative:
/// their greatest common divisor, and in `x` and `y` the algorithm's
/// coefficients, for which `a * x + b * y` is that divisor.
pub fn egcd(a: BigInt, b: BigInt, x: &mut BigInt, y: &mut BigInt) -> (g: BigInt)
    requires
        bigint_value(a) >= 0,
        bigint_value(b) >= 0,
    ensures
        is_gcd(bigint_value(g), bigint_value(a), bigint_value(b)),
        bigint_value(a) * bigint_value(*final(x)) + bigint_value(b) * bigint_value(*final(y))
            == bigint_value(g),
        (bigint_value(*final(x)), bigint_value(*final(y))) == bezout_coefficients(
            bigint_value(a),
            bigint_value(b),
        ),
    decreases bigint_value(a),
{
    let zero = bigint_from_i64(0);
    if bigint_eq(&a, &zero) {
        *x = bigint_from_i64(0);
        *y = bigint_from_i64(1);
        proof {
            lemma_gcd_of_zero(bigint_value(b));
        }
        return b;
    }
    let mut x1 = bigint_from_i64(0);
    let mut y1 = bigint_from_i64(0);
    let r = bigint_rem(&b, &a);
    let q = bigint_div(&b, &a);
    proof {
        let av = bigint_value(a);
        let bv = bigint_value(b);
        lemma_fundamental_div_mod(bv, av);
        assert(trunc_div(bv, av) == bv / av);
        assert(trunc_rem(bv, av) == bv % av) by (nonlinear_arith)
            requires
                bv == av * (bv / av) + bv % av,
                trunc_rem(bv, av) == bv - av * (bv / av),
        ;
        lemma_mod_bound(bv, av);
    }
    let gcd = egcd(r, a.clone(), &mut x1, &mut y1);
    let t = bigint_mul(&q, &x1);
    *x = bigint_sub(&y1, &t);
    *y = x1;
    proof {
        let av = bigint_value(a);
        let bv = bigint_value(b);
        let xv = bigint_value(x1);
        let yv = bigint_value(y1);
        let gv = bigint_value(gcd);
        lemma_gcd_step(gv, av, bv);
        assert(av * (yv - (bv / av) * xv) + bv * xv == gv) by (nonlinear_arith)
            requires
                (bv % av) * xv + av * yv == gv,
                bv == av * (bv / av) + bv % av,
        ;
    }
    gcd
}

/// The inverse of `a` modulo `m`, for `a` not negative and `m` positive: the
/// number `x` from 0 up to, and not including, `m` with `a * x` congruent to 1
/// modulo `m`. There is one exactly where 1 is the greatest common divisor of
/// `a` and `m`; where it is not, the result is `None`.
pub fn modulo_inverse(a: BigInt, m: BigInt) -> (r: Option<BigInt>)
    requires
        bigint_value(a) >= 0,
        bigint_value(m) > 0,
    ensures
        r is Some <==> is_gcd(1, bigint_value(a), bigint_value(m)),
        r matches Some(x) ==> {
            &&& 0 <= bigint_value(x) < bigint_value(m)
            &&& (bigint_value(a) * bigint_value(x)) % bigint_value(m) == 1int % bigint_value(m)
        },
{
    let mut x = bigint_from_i64(0);
    let mut y = bigint_from_i64(0);
    let g = egcd(a.clone(), m.clone(), &mut x, &mut y);
    let one = bigint_from_i64(1);
    if !bigint_eq(&g, &one) {
        proof {
            if is_gcd(1, bigint_value(a), bigint_value(m)) {
                lemma_gcd_unique(1, bigint_value(g), bigint_value(a), bigint_value(m));
            }
        }
        None
    } else {
        let r1 = bigint_rem(&x, &m);
        let r2 = bigint_add(&r1, &m);
        let r3 = bigint_rem(&r2, &m);
        proof {
            let av = bigint_value(a);
            let mv = bigint_value(m);
            let xv = bigint_value(x);
            let yv = bigint_value(y);
            lemma_inverse_normalised(av, mv, xv, yv);
        }
        Some(r3)
    }
}

/// Where `a * x + m * y` is 1, the residue of `x` modulo `m`, computed with
/// remainders that take the sign of the dividend, is an inverse of `a`.
proof fn lemma_inverse_normalised(a: int, m: int, x: int, y: int)
    requires
        m > 0,
        a * x + m * y == 1,
    ensures
        ({
            let v = trunc_rem(trunc_rem(x, m) + m, m);
            &&& 0 <= v < m
            &&& v == x % m
            &&& (a * v) % m == 1int % m
        }),
{
    let r1 = trunc_rem(x, m);
    lemma_fundamental_div_mod(x, m);
    lemma_mod_bound(x, m);
    if x >= 0 {
        assert(trunc_div(x, m) == x / m);
        assert(r1 == x % m) by (nonlinear_arith)
            requires
                r1 == x - m * (x / m),
                x == m * (x / m) + x % m,
        ;
    } else {
        lemma_fundamental_div_mod(-x, m);
        lemma_mod_bound(-x, m);
        assert(r1 == -((-x) % m)) by (nonlinear_arith)
            requires
                r1 == x - m * (-((-x) / m)),
                -x == m * ((-x) / m) + (-x) % m,
        ;
        assert(x == m * (-((-x) / m)) + r1) by (nonlinear_arith)
            requires
                r1 == x - m * (-((-x) / m)),
        ;
        lemma_mod_multiples_vanish(-((-x) / m), r1, m);
        assert(x % m == r1 % m);
    }
    let s = r1 + m;
    assert(0 <= s < 2 * m);
    assert(trunc_div(s, m) == s / m);
    lemma_fundamental_div_mod(s, m);
    let v = trunc_rem(s, m);
    assert(v == s % m) by (nonlinear_arith)
        requires
            v == s - m * (s / m),
            s == m * (s / m) + s % m,
    ;
    lemma_mod_bound(s, m);
    lemma_mod_multiples_vanish(1, r1, m);
    assert(m * 1 + r1 == s);
    if x >= 0 {
        lemma_small_mod(r1 as nat, m as nat);
    }
    assert(v == x % m);
    lemma_mul_mod_noop_right(a, x, m);
    assert((a * v) % m == (a * x) % m);
    assert(a * x == m * (-y) + 1) by (nonlinear_arith)
        requires
            a * x + m * y == 1,
    ;
    lemma_mod_multiples_vanish(-y, 1, m);
}

/// `n` without its factors of two; 0 for 0.
pub open spec fn odd_part(n: nat) -> nat
    decreases n,
{
    if n == 0 || n % 2 == 1 {
        n
    } else {
        odd_part(n / 2)
    }
}

/// The number of factors of two in `n`; 0 for 0.
pub open spec fn twos(n: nat) -> nat
    decreases n,
{
    if n == 0 || n % 2 == 1 {
        0
    } else {
        1 + twos(n / 2)
    }
}

/// `a` to the power `d * 2^j`, reduced modulo `n`.
pub open spec fn power_residue(a: nat, d: nat, j: nat, n: nat) -> int {
    pow(a as int, d * pow2(j)) % (n as int)
}

/// Whether the witness `a` lets `n` pass one round, where `n - 1` is
/// `d * 2^r`: `a` to the power `d` is 1 modulo `n`, or one of that power's
/// first `r` repeated squares, the power itself included, is `n - 1`.
pub open spec fn round_passes(n: nat, d: nat, r: nat, a: nat) -> bool {
    ||| power_residue(a, d, 0, n) == 1
    ||| exists|j: nat| j < r && #[trigger] power_residue(a, d, j, n) == n - 1
}

/// Whether `n` is a strong probable prime to the base `a`.
pub open spec fn strong_probable_prime(n: nat, a: nat) -> bool {
    round_passes(n, odd_part((n - 1) as nat), twos((n - 1) as nat), a)
}

/// Whether `n` is odd and, where it is 5 or more, a strong probable prime to
/// a base from 2 to `n - 2`: what a number that passed a Miller-Rabin test
/// of one round or more is known to be.
pub open spec fn probable_prime(n: nat) -> bool {
    n % 2 == 1 && (n < 5 || exists|a: nat|
        2 <= a <= n - 2 && #[trigger] strong_probable_prime(n, a))
}

/// Whether no number from 2 up to the square root of `n` divides `n`.
pub open spec fn no_small_divisor(n: nat) -> bool {
    forall|d: int| 2 <= d && d * d <= n ==> !#[trigger] divides(d, n as int)
}

/// A number above 1 is prime exactly where nothing from 2 up to its square
/// root divides it.
pub proof fn lemma_trial_division(n: nat)
    requires
        n >= 2,
    ensures
        no_small_divisor(n) <==> is_prime_number(n),
{
    if is_prime_number(n) {
        assert forall|d: int| 2 <= d && d * d <= n implies !#[trigger] divides(d, n as int) by {
            assert(d < n) by (nonlinear_arith)
                requires
                    2 <= d,
                    d * d <= n,
            ;
        }
    }
    if no_small_divisor(n) {
        assert forall|d: int| 2 <= d < n implies !#[trigger] divides(d, n as int) by {
            if divides(d, n as int) {
                let e = n as int / d;
                lemma_fundamental_div_mod(n as int, d);
                assert(n == d * e);
                assert(e >= 2 && e < n) by (nonlinear_arith)
                    requires
                        n == d * e,
                        2 <= d < n,
                        n >= 2,
                ;
                assert(n as int == e * d) by (nonlinear_arith)
                    requires
                        n == d * e,
                ;
                vstd::arithmetic::div_mod::lemma_mod_multiples_basic(d, e);
                assert(divides(e, n as int));
                if d * d <= n {
                    assert(!divides(d, n as int));
                } else {
                    assert(e * e <= n) by (nonlinear_arith)
                        requires
                            n == d * e,
                            d * d > n,
                            d >= 2,
                            e >= 2,
                    ;
                    assert(!divides(e, n as int));
                }
            }
        }
    }
}

/// The factors of two in a number are no more than its bits.
pub proof fn lemma_twos_bound(n: nat)
    ensures
        twos(n) <= bit_length(n),
    decreases n,
{
    if n != 0 && n % 2 == 0 {
        lemma_twos_bound(n / 2);
    }
}

/// A larger number has no fewer bits.
pub proof fn lemma_bit_length_monotonic(a: nat, b: nat)
    requires
        a <= b,
    ensures
        bit_length(a) <= bit_length(b),
    decreases b,
{
    if a != 0 {
        lemma_bit_length_monotonic(a / 2, b / 2);
    }
}

/// Squaring a residue doubles the exponent.
proof fn lemma_square_step(a: nat, d: nat, j: nat, n: nat)
    requires
        n > 0,
    ensures
        pow(power_residue(a, d, j, n), 2) % (n as int) == power_residue(a, d, j + 1, n),
{
    let e = d * pow2(j);
    lemma_pow_mod_noop(pow(a as int, e), 2, n as int);
    lemma_pow_multiplies(a as int, e, 2);
    vstd::arithmetic::power2::lemma_pow2_unfold(j + 1);
    assert(e * 2 == d * pow2(j + 1)) by (nonlinear_arith)
        requires
            e == d * pow2(j),
            pow2(j + 1) == 2 * pow2(j),
    ;
}

/// A number above 0 is its odd part times two to the power of its factors
/// of two.
pub proof fn lemma_odd_part(m: nat)
    requires
        m > 0,
    ensures
        m == odd_part(m) * pow2(twos(m)),
        odd_part(m) % 2 == 1,
    decreases m,
{
    vstd::arithmetic::power2::lemma2_to64();
    if m % 2 == 0 {
        lemma_odd_part(m / 2);
        vstd::arithmetic::power2::lemma_pow2_unfold(twos(m));
        assert(odd_part(m / 2) * (2 * pow2(twos(m / 2))) == 2 * (odd_part(m / 2) * pow2(
            twos(m / 2),
        ))) by (nonlinear_arith);
    } else {
        assert(odd_part(m) * pow2(0) == m) by (nonlinear_arith)
            requires
                odd_part(m) == m,
                pow2(0) == 1,
        ;
    }
}

/// Modulo a prime, a repeated square that is 1 was reached from 1 or by way
/// of -1: 1 has no other square roots.
proof fn lemma_descent(p: nat, a: nat, d: nat, j: nat)
    requires
        is_prime_number(p),
        power_residue(a, d, j, p) == 1,
    ensures
        round_passes(p, d, j, a),
    decreases j,
{
    if j > 0 {
        let i = (j - 1) as nat;
        let x = power_residue(a, d, i, p);
        lemma_square_step(a, d, i, p);
        lemma_mod_bound(pow(a as int, d * pow2(i)), p as int);
        vstd::arithmetic::power::lemma_square_is_pow2(x);
        lemma_fundamental_div_mod(x * x, p as int);
        let c = (x * x) / (p as int);
        assert(x * x - 1 == p * c);
        lemma_multiple_divides(p as int, c);
        assert((x + 1) * (x - 1) == x * x - 1) by (nonlinear_arith);
        lemma_euclid(p, (x + 1) as nat, x - 1);
        if divides(p as int, x + 1) {
            lemma_divisor_le(p as int, x + 1);
            assert(power_residue(a, d, i, p) == p - 1);
        } else {
            if x == 0 {
                vstd::arithmetic::div_mod::lemma_fundamental_div_mod_converse(
                    -1,
                    p as int,
                    -1,
                    p - 1,
                );
                assert(false);
            }
            lemma_small_mod((x - 1) as nat, p);
            assert(x == 1);
            lemma_descent(p, a, d, i);
            if power_residue(a, d, 0, p) != 1 {
                let w = choose|w: nat| w < i && #[trigger] power_residue(a, d, w, p) == p - 1;
                assert(w < j && power_residue(a, d, w, p) == p - 1);
            }
        }
    }
}

/// An odd prime is a strong probable prime to every base from 1 up to itself:
/// no witness makes a prime fail a round of the Miller-Rabin test.
pub proof fn lemma_prime_passes(p: nat, a: nat)
    requires
        is_prime_number(p),
        p % 2 == 1,
        1 <= a < p,
    ensures
        strong_probable_prime(p, a),
{
    let m = (p - 1) as nat;
    lemma_odd_part(m);
    let d = odd_part(m);
    let r = twos(m);
    lemma_small_mod(a, p);
    lemma_fermat(p, a);
    assert(power_residue(a, d, r, p) == 1);
    lemma_descent(p, a, d, r);
}

/// One Miller-Rabin round with a given witness: whether `a` lets `number`
/// pass, where `number - 1` is `d * 2^r`.
pub fn witness_passes(number: &BigUint, d: &BigUint, r: u64, a: &BigUint) -> (res: bool)
    requires
        biguint_value(*number) >= 1,
        r >= 1,
    ensures
        res == round_passes(
            biguint_value(*number),
            biguint_value(*d),
            r as nat,
            biguint_value(*a),
        ),
{
    let ghost n = biguint_value(*number);
    let ghost dv = biguint_value(*d);
    let ghost av = biguint_value(*a);
    let one = biguint_from_u64(1);
    let two = biguint_from_u64(2);
    let n_minus_1 = biguint_sub(number, &one);
    let mut x = biguint_modpow(a, d, number);
    proof {
        vstd::arithmetic::power2::lemma2_to64();
        assert(dv * pow2(0) == dv) by (nonlinear_arith)
            requires
                pow2(0) == 1,
        ;
        assert(biguint_value(x) == power_residue(av, dv, 0, n));
    }
    if biguint_eq(&x, &one) || biguint_eq(&x, &n_minus_1) {
        return true;
    }
    let mut j: u64 = 1;
    while j < r
        invariant
            1 <= j <= r,
            n == biguint_value(*number),
            n >= 1,
            dv == biguint_value(*d),
            av == biguint_value(*a),
            biguint_value(two) == 2,
            biguint_value(n_minus_1) == n - 1,
            biguint_value(x) == power_residue(av, dv, (j - 1) as nat, n),
            power_residue(av, dv, 0, n) != 1,
            forall|i: nat| i < j ==> #[trigger] power_residue(av, dv, i, n) != n - 1,
        decreases r - j,
    {
        proof {
            lemma_square_step(av, dv, (j - 1) as nat, n);
        }
        x = biguint_modpow(&x, &two, number);
        if biguint_eq(&x, &n_minus_1) {
            assert(power_residue(av, dv, j as nat, n) == n - 1);
            return true;
        }
        j += 1;
    }
    false
}

/// The Miller-Rabin test with `k` rounds. An even number fails. An odd
/// number below 5 has no witness to draw and passes. Any other odd number
/// passes where each of `k` witnesses, drawn from 2 to `number - 2`, lets
/// it pass its round; the first that does not ends the test.
pub fn is_prime_probabilistic(number: &BigUint, k: usize) -> (res: bool)
    ensures
        biguint_value(*number) % 2 == 0 ==> !res,
        biguint_value(*number) % 2 == 1 && (biguint_value(*number) < 5 || k == 0) ==> res,
        biguint_value(*number) % 2 == 1 && is_prime_number(biguint_value(*number)) ==> res,
        !res && biguint_value(*number) % 2 == 1 ==> exists|a: nat|
            2 <= a <= biguint_value(*number) - 2 && !#[trigger] strong_probable_prime(
                biguint_value(*number),
                a,
            ),
        res && k > 0 ==> probable_prime(biguint_value(*number)),
{
    let ghost n = biguint_value(*number);
    let zero = biguint_from_u64(0);
    let one = biguint_from_u64(1);
    let two = biguint_from_u64(2);
    let five = biguint_from_u64(5);
    let parity = biguint_rem(number, &two);
    if biguint_eq(&parity, &zero) {
        return false;
    }
    if biguint_lt(number, &five) {
        return true;
    }
    let bits = biguint_bits(number);
    let n_minus_1 = biguint_sub(number, &one);
    let mut temp = n_minus_1.clone();
    let mut r: u64 = 0;
    proof {
        lemma_twos_bound((n - 1) as nat);
        lemma_bit_length_monotonic((n - 1) as nat, n);
    }
    loop
        invariant_except_break
            biguint_value(two) == 2,
            biguint_value(zero) == 0,
            biguint_value(temp) > 0,
            odd_part(biguint_value(temp)) == odd_part((n - 1) as nat),
            twos((n - 1) as nat) == r + twos(biguint_value(temp)),
            twos((n - 1) as nat) <= u64::MAX,
        ensures
            biguint_value(temp) == odd_part((n - 1) as nat),
            r == twos((n - 1) as nat),
        decreases biguint_value(temp),
    {
        let low = biguint_rem(&temp, &two);
        if !biguint_eq(&low, &zero) {
            break ;
        }
        temp = biguint_div(&temp, &two);
        r += 1;
    }
    let d = temp;
    let mut round: usize = 0;
    while round < k
        invariant
            round <= k,
            n == biguint_value(*number),
            n >= 5,
            n % 2 == 1,
            biguint_value(two) == 2,
            biguint_value(n_minus_1) == n - 1,
            biguint_value(d) == odd_part((n - 1) as nat),
            r == twos((n - 1) as nat),
            round > 0 ==> probable_prime(n),
        decreases k - round,
    {
        let a = random_biguint_range(&two, &n_minus_1);
        if !witness_passes(number, &d, r, &a) {
            assert(!strong_probable_prime(n, biguint_value(a)));
            proof {
                if is_prime_number(n) {
                    lemma_prime_passes(n, biguint_value(a));
                }
            }
            return false;
        }
        assert(strong_probable_prime(n, biguint_value(a)));
        round += 1;
    }
    true
}

/// Trial division: whether no number from 2 up to the square root of
/// `number` divides it. For a number above 1 that is whether it is prime.
pub fn is_prime(number: &BigUint) -> (res: bool)
    ensures
        res == no_small_divisor(biguint_value(*number)),
        biguint_value(*number) >= 2 ==> res == is_prime_number(biguint_value(*number)),
{
    let ghost n = biguint_value(*number);
    let zero = biguint_from_u64(0);
    let max = biguint_sqrt(number);
    let ghost m = biguint_value(max);
    let mut it = biguint_range_inclusive(biguint_from_u64(2), max);
    let ghost mut lo: nat = 2;
    proof {
        if n >= 2 {
            lemma_trial_division(n);
        }
    }
    loop
        invariant
            n == biguint_value(*number),
            biguint_value(zero) == 0,
            m * m <= n < (m + 1) * (m + 1),
            2 <= lo,
            range_pending(it) =~= Seq::new(
                if lo <= m {
                    (m - lo + 1) as nat
                } else {
                    0nat
                },
                |i: int| (lo + i) as nat,
            ),
            forall|d: int| 2 <= d < lo ==> !#[trigger] divides(d, n as int),
            n >= 2 ==> no_small_divisor(n) == is_prime_number(n),
        decreases range_pending(it).len(),
    {
        let ghost before = range_pending(it);
        match biguint_range_next(&mut it) {
            None => {
                assert forall|d: int| 2 <= d && d * d <= n implies !#[trigger] divides(
                    d,
                    n as int,
                ) by {
                    assert(d <= m) by (nonlinear_arith)
                        requires
                            2 <= d,
                            d * d <= n,
                            n < (m + 1) * (m + 1),
                            m >= 0,
                    ;
                }
                return true;
            },
            Some(i) => {
                assert(biguint_value(i) == lo);
                let rem = biguint_rem(number, &i);
                if biguint_eq(&rem, &zero) {
                    assert(divides(lo as int, n as int));
                    assert(lo * lo <= n) by (nonlinear_arith)
                        requires
                            2 <= lo <= m,
                            m * m <= n,
                    ;
                    return false;
                }
                proof {
                    assert(range_pending(it) =~= before.drop_first());
                    lo = lo + 1;
                }
            },
        }
    }
}

/// Whether `v` can be a candidate of `h` bits: its top bit and its bottom
/// bit are set, and it has no bit above the top one.
pub open spec fn is_candidate(v: nat, h: nat) -> bool {
    h >= 1 && pow2((h - 1) as nat) <= v < pow2(h) && v % 2 == 1
}

/// Whether `(e, d, n)` is a triple for the primes `p` and `q`: `n` is their
/// product, `e` lies strictly between 1 and the least common multiple of
/// `p - 1` and `q - 1` and has no divisor in common with it, and `d` is the
/// inverse of `e` modulo that multiple.
pub open spec fn derived_from(e: nat, d: nat, n: nat, p: nat, q: nat) -> bool {
    exists|z: nat|
        {
            &&& #[trigger] is_lcm(z, (p - 1) as nat, (q - 1) as nat)
            &&& 1 < e < z
            &&& is_gcd(1, e as int, z as int)
            &&& d < z
            &&& (e * d) % z == 1
            &&& n == p * q
        }
}

/// Whether `(e, d, n)` is a triple for two candidates of `h` bits that
/// passed the Miller-Rabin test.
pub open spec fn generated(e: nat, d: nat, n: nat, h: nat) -> bool {
    exists|p: nat, q: nat|
        {
            &&& is_candidate(p, h)
            &&& is_candidate(q, h)
            &&& probable_prime(p)
            &&& probable_prime(q)
            &&& #[trigger] derived_from(e, d, n, p, q)
        }
}

/// Whether a witness refutes `n`: to a base from 2 to `n - 2`, `n` is no
/// strong probable prime. An odd number that is refuted is not prime.
pub open spec fn refuted(n: nat) -> bool {
    exists|a: nat| 2 <= a <= n - 2 && !#[trigger] strong_probable_prime(n, a)
}

/// What a search for a prime of `h` bits that gave up has met: a candidate
/// that a witness refuted.
pub open spec fn met_refuted_candidate(h: nat) -> bool {
    exists|v: nat| is_candidate(v, h) && #[trigger] refuted(v)
}

/// No witness refutes an odd prime.
pub proof fn lemma_refuted_is_no_prime(n: nat)
    requires
        n % 2 == 1,
        refuted(n),
    ensures
        !is_prime_number(n),
{
    if is_prime_number(n) {
        let a = choose|a: nat| 2 <= a <= n - 2 && !#[trigger] strong_probable_prime(n, a);
        lemma_prime_passes(n, a);
    }
}

/// Candidates of 3 bits or fewer are 1, 3, 5 and 7, and no witness refutes
/// one of them: a search for a prime among them does not give up.
pub proof fn lemma_few_bits_pass(h: nat)
    requires
        1 <= h <= 3,
    ensures
        !met_refuted_candidate(h),
{
    vstd::arithmetic::power2::lemma2_to64();
    assert forall|v: nat| is_candidate(v, h) implies !#[trigger] refuted(v) by {
        if refuted(v) {
            assert(v == 1 || v == 3 || v == 5 || v == 7);
            assert(v == 5 || v == 7);
            assert(is_prime_number(v)) by {
                assert forall|d: int| 2 <= d < v implies !#[trigger] divides(d, v as int) by {
                    if v == 5 {
                        assert(5int % 2 == 1 && 5int % 3 == 2 && 5int % 4 == 1);
                    } else {
                        assert(7int % 2 == 1 && 7int % 3 == 1 && 7int % 4 == 3 && 7int % 5 == 2
                            && 7int % 6 == 1);
                    }
                }
            }
            lemma_refuted_is_no_prime(v);
        }
    }
}

/// "Or" with a bit below a number that was shifted by one adds the bit.
pub proof fn lemma_or_low_bit(p: nat, bit: nat)
    requires
        bit <= 1,
    ensures
        nat_or(2 * p, bit) == 2 * p + bit,
{
    if p != 0 && bit != 0 {
        assert((2 * p) / 2 == p);
        assert(nat_or(p, 0) == p);
    }
}

/// The "or" of two numbers is no smaller than either, is odd where the
/// second is, and has no more bits than the longer of the two.
pub proof fn lemma_or_bounds(a: nat, b: nat, h: nat)
    requires
        a < pow2(h),
        b < pow2(h),
    ensures
        nat_or(a, b) >= a,
        nat_or(a, b) >= b,
        nat_or(a, b) < pow2(h),
        b % 2 == 1 ==> nat_or(a, b) % 2 == 1,
    decreases a,
{
    if a != 0 && b != 0 {
        vstd::arithmetic::power2::lemma2_to64();
        if h == 0 {
            assert(pow2(0) == 1);
        } else {
            vstd::arithmetic::power2::lemma_pow2_unfold(h);
            lemma_or_bounds(a / 2, b / 2, (h - 1) as nat);
        }
    }
}

/// The top bit and the bottom bit of `h` bits, "or"-ed together.
pub proof fn lemma_or_mask(h: nat)
    requires
        h >= 1,
    ensures
        nat_or(pow2((h - 1) as nat), 1) == if h == 1 {
            1nat
        } else {
            pow2((h - 1) as nat) + 1
        },
        nat_or(pow2((h - 1) as nat), 1) < pow2(h),
        nat_or(pow2((h - 1) as nat), 1) >= pow2((h - 1) as nat),
{
    vstd::arithmetic::power2::lemma2_to64();
    vstd::arithmetic::power2::lemma_pow2_unfold(h);
    if h == 1 {
        assert(nat_or(1, 1) == 2 * nat_or(0, 0) + 1);
    } else {
        let t = pow2((h - 1) as nat);
        vstd::arithmetic::power2::lemma_pow2_unfold((h - 1) as nat);
        vstd::arithmetic::power2::lemma_pow2_pos((h - 2) as nat);
        assert(t % 2 == 0);
        assert(t / 2 == pow2((h - 2) as nat));
        assert(nat_or(t / 2, 0) == t / 2);
        assert(nat_or(t, 1) == 2 * nat_or(t / 2, 0) + 1);
    }
}

/// The most attempts that a search for a prime, an exponent or a valid
/// triple makes before it gives up.
pub const ATTEMPT_LIMIT: u64 = 0xffff_ffff_ffff_ffff;

/// Generates pairs of RSA keys of a given size in bits.
pub struct RSAKeysGenerator {
    key_size: u16,
}

impl RSAKeysGenerator {
    /// The size in bits of the keys that the generator makes.
    pub closed spec fn spec_key_size(&self) -> u16 {
        self.key_size
    }

    /// A generator of keys of `key_size` bits.
    pub fn new(key_size: u16) -> (r: Self)
        ensures
            r.spec_key_size() == key_size,
    {
        RSAKeysGenerator { key_size }
    }

    /// The size in bits of the keys that the generator makes.
    pub fn key_size(&self) -> (r: u16)
        ensures
            r == self.spec_key_size(),
    {
        self.key_size
    }

    /// A candidate prime of half the key size in bits: each bit a coin toss,
    /// then the top bit and the bottom bit set.
    pub fn generate_candidate_prime(&self) -> (r: BigUint)
        requires
            self.spec_key_size() >= 2,
        ensures
            is_candidate(biguint_value(r), (self.spec_key_size() / 2) as nat),
    {
        let half: u16 = self.key_size / 2;
        let mut p = biguint_from_u64(0);
        let mut i: u16 = 0;
        proof {
            vstd::arithmetic::power2::lemma2_to64();
        }
        while i < half
            invariant
                i <= half,
                biguint_value(p) < pow2(i as nat),
            decreases half - i,
        {
            let bit: u64 = if random_bool() {
                1u64
            } else {
                0u64
            };
            let ghost before = biguint_value(p);
            p = biguint_shl(p, 1);
            p = biguint_bitor(p, biguint_from_u64(bit));
            proof {
                vstd::arithmetic::power2::lemma2_to64();
                assert(before * pow2(1) == 2 * before) by (nonlinear_arith)
                    requires
                        pow2(1) == 2,
                ;
                lemma_or_low_bit(before, bit as nat);
                vstd::arithmetic::power2::lemma_pow2_unfold((i + 1) as nat);
            }
            i += 1;
        }
        let top = biguint_shl(biguint_from_u64(1), half - 1);
        let mask = biguint_bitor(top, biguint_from_u64(1));
        let ghost pv = biguint_value(p);
        p = biguint_bitor(p, mask);
        proof {
            let h = half as nat;
            assert(1 * pow2((h - 1) as nat) == pow2((h - 1) as nat));
            lemma_or_mask(h);
            lemma_or_bounds(pv, biguint_value(mask), h);
        }
        p
    }

    /// A candidate that passes the Miller-Rabin test with 128 rounds: the
    /// first of the candidates drawn that does. The result is `None` where
    /// `ATTEMPT_LIMIT` candidates in a row failed the test, each refuted by
    /// a witness. For key sizes below 8 every candidate is 1 or a prime, so
    /// that the first one passes.
    pub fn generate_prime_number(&self) -> (r: Option<BigUint>)
        requires
            self.spec_key_size() >= 2,
        ensures
            r matches Some(p) ==> is_candidate(biguint_value(p), (self.spec_key_size() / 2) as nat)
                && probable_prime(biguint_value(p)),
            r is None ==> met_refuted_candidate((self.spec_key_size() / 2) as nat),
            self.spec_key_size() < 8 ==> r is Some,
    {
        let ghost h = (self.key_size / 2) as nat;
        let mut attempt: u64 = 0;
        while attempt < ATTEMPT_LIMIT
            invariant
                self.spec_key_size() >= 2,
                h == (self.spec_key_size() / 2) as nat,
                attempt > 0 ==> met_refuted_candidate(h),
            decreases ATTEMPT_LIMIT - attempt,
        {
            let p = self.generate_candidate_prime();
            if is_prime_probabilistic(&p, 128) {
                return Some(p);
            }
            assert(refuted(biguint_value(p)));
            attempt += 1;
        }
        proof {
            if self.key_size < 8 {
                lemma_few_bits_pass(h);
            }
        }
        None
    }

    /// A triple for two fresh primes that was not held to the validity
    /// predicate. The public exponent is drawn from 2 up to the least common
    /// multiple of `p - 1` and `q - 1` until it has no divisor in common
    /// with that multiple. The result is `None` where the key size leaves no
    /// room for an exponent, as every size below 6 does, or where a search
    /// gave up.
    pub fn generate_keys_unchecked(&self) -> (r: Option<RSAKeys>)
        ensures
            self.spec_key_size() < 6 ==> r is None,
            r matches Some(k) ==> generated(
                k.spec_e(),
                k.spec_d(),
                k.spec_n(),
                (self.spec_key_size() / 2) as nat,
            ),
    {
        if self.key_size < 2 {
            return None;
        }
        let p = match self.generate_prime_number() {
            Some(p) => p,
            None => { return None; },
        };
        let q = match self.generate_prime_number() {
            Some(q) => q,
            None => { return None; },
        };
        let ghost h = (self.key_size / 2) as nat;
        let ghost pv = biguint_value(p);
        let ghost qv = biguint_value(q);
        proof {
            vstd::arithmetic::power2::lemma_pow2_pos((h - 1) as nat);
        }
        let one = biguint_from_u64(1);
        let two = biguint_from_u64(2);
        let n = biguint_mul(&p, &q);
        let z = biguint_lcm(biguint_sub(&p, &one), biguint_sub(&q, &one));
        proof {
            if self.key_size < 6 {
                vstd::arithmetic::power2::lemma2_to64();
                lemma_small_candidates(pv, qv, h, biguint_value(z));
            }
        }
        if !biguint_lt(&two, &z) {
            return None;
        }
        let mut attempt: u64 = 0;
        while attempt < ATTEMPT_LIMIT
            invariant
                biguint_value(two) == 2,
                biguint_value(two) < biguint_value(z),
                biguint_value(n) == pv * qv,
                is_lcm(biguint_value(z), (pv - 1) as nat, (qv - 1) as nat),
                is_candidate(pv, h),
                is_candidate(qv, h),
                probable_prime(pv),
                probable_prime(qv),
                h == (self.spec_key_size() / 2) as nat,
                self.spec_key_size() >= 6,
            decreases ATTEMPT_LIMIT - attempt,
        {
            let e = random_biguint_range(&two, &z);
            match keys_for_exponent(n.clone(), &z, e) {
                Some(keys) => {
                    assert(derived_from(keys.spec_e(), keys.spec_d(), keys.spec_n(), pv, qv));
                    return Some(keys);
                },
                None => {},
            }
            attempt += 1;
        }
        None
    }

    /// A triple for two fresh primes that passes the validity predicate:
    /// triples are generated until one passes. The result is `None` where no
    /// triple could be generated or `ATTEMPT_LIMIT` triples in a row failed.
    pub fn generate_keys(&self) -> (r: Option<RSAKeys>)
        ensures
            self.spec_key_size() < 6 ==> r is None,
            r matches Some(k) ==> k.spec_valid() && generated(
                k.spec_e(),
                k.spec_d(),
                k.spec_n(),
                (self.spec_key_size() / 2) as nat,
            ),
    {
        let mut attempt: u64 = 0;
        while attempt < ATTEMPT_LIMIT
            decreases ATTEMPT_LIMIT - attempt,
        {
            match self.generate_keys_unchecked() {
                None => { return None; },
                Some(keys) => {
                    if keys.valid() {
                        return Some(keys);
                    }
                },
            }
            attempt += 1;
        }
        None
    }
}

/// Candidates of fewer than 3 bits leave no room for an exponent: the least
/// common multiple of `p - 1` and `q - 1` is at most 2.
proof fn lemma_small_candidates(p: nat, q: nat, h: nat, z: nat)
    requires
        1 <= h <= 2,
        is_candidate(p, h),
        is_candidate(q, h),
        is_lcm(z, (p - 1) as nat, (q - 1) as nat),
        pow2(0) == 1,
        pow2(1) == 2,
        pow2(2) == 4,
    ensures
        z <= 2,
{
    if h == 1 {
        assert(p == 1 && q == 1);
    } else {
        assert(p == 3 && q == 3);
        assert(divides(2, 2));
    }
}

/// The triple with the modulus `n` and the public exponent `e`, where `z`
/// is the least common multiple that goes with `n`: it exists exactly where
/// `e` lies strictly between 1 and `z` and has no divisor in common with `z`,
/// and its private exponent is the inverse of `e` modulo `z`.
pub fn keys_for_exponent(n: BigUint, z: &BigUint, e: BigUint) -> (r: Option<RSAKeys>)
    ensures
        r is Some <==> 1 < biguint_value(e) < biguint_value(*z) && is_gcd(
            1,
            biguint_value(e) as int,
            biguint_value(*z) as int,
        ),
        r matches Some(k) ==> {
            &&& k.spec_e() == biguint_value(e)
            &&& k.spec_n() == biguint_value(n)
            &&& k.spec_d() < biguint_value(*z)
            &&& (k.spec_e() * k.spec_d()) % biguint_value(*z) == 1
        },
{
    let one = biguint_from_u64(1);
    if !biguint_lt(&one, &e) || !biguint_lt(&e, z) {
        return None;
    }
    let e_signed = match biguint_to_bigint(&e) {
        Some(v) => v,
        None => { return None; },
    };
    let z_signed = match biguint_to_bigint(z) {
        Some(v) => v,
        None => { return None; },
    };
    let g = bigint_gcd(e_signed.clone(), z_signed.clone());
    if !bigint_eq(&g, &bigint_from_i64(1)) {
        proof {
            if is_gcd(1, biguint_value(e) as int, biguint_value(*z) as int) {
                lemma_gcd_unique(
                    1,
                    bigint_value(g),
                    biguint_value(e) as int,
                    biguint_value(*z) as int,
                );
            }
        }
        return None;
    }
    let inverse = match modulo_inverse(e_signed, z_signed) {
        Some(v) => v,
        None => { return None; },
    };
    let d = match bigint_to_biguint(&inverse) {
        Some(v) => v,
        None => { return None; },
    };
    proof {
        lemma_small_mod(1, biguint_value(*z));
    }
    Some(RSAKeys::new_unchecked(e, d, n))
}

} // verus!
