//! Number theory behind the two ciphers' arithmetic: Bezout's identity,
//! Euclid's lemma, the binomial theorem, Fermat's little theorem, and what
//! follows from them for the Miller-Rabin test and for RSA.

use vstd::prelude::*;
use vstd::arithmetic::power::pow;
use vstd::arithmetic::div_mod::{
    lemma_fundamental_div_mod, lemma_mod_bound, lemma_mod_multiples_basic,
};
use crate::numbers::{
    divides, is_gcd, is_prime_number, lemma_divides_combination, lemma_divisor_le,
    lemma_gcd_of_zero, lemma_gcd_step,
};

verus! {

/// What `d` divides is `d` times the quotient.
pub proof fn lemma_divides_witness(d: int, n: int)
    requires
        d > 0,
        divides(d, n),
    ensures
        n == d * (n / d),
{
    lemma_fundamental_div_mod(n, d);
}

/// `d` divides its multiples.
pub proof fn lemma_multiple_divides(d: int, k: int)
    requires
        d > 0,
    ensures
        divides(d, d * k),
        divides(d, k * d),
{
    lemma_mod_multiples_basic(k, d);
    assert(d * k == k * d) by (nonlinear_arith);
}

/// What divides a number divides its multiples.
pub proof fn lemma_divides_product(d: int, a: int, b: int)
    requires
        d > 0,
        divides(d, a),
    ensures
        divides(d, a * b),
        divides(d, b * a),
{
    assert(0int % d == 0);
    lemma_divides_combination(d, a, b, 0);
    assert(a * b == b * a) by (nonlinear_arith);
}

/// What divides two numbers divides their difference.
pub proof fn lemma_divides_difference(d: int, a: int, b: int)
    requires
        d > 0,
        divides(d, a),
        divides(d, b),
    ensures
        divides(d, a - b),
        divides(d, a + b),
{
    lemma_divides_combination(d, b, -1, a);
    assert(b * (-1) + a == a - b) by (nonlinear_arith);
    lemma_divides_combination(d, b, 1, a);
    assert(b * 1 + a == a + b) by (nonlinear_arith);
}

/// Bezout's identity: the greatest common divisor of two numbers, with
/// coefficients that combine the two numbers to it.
pub proof fn lemma_bezout(a: nat, b: nat) -> (r: (int, int, int))
    ensures
        is_gcd(r.0, a as int, b as int),
        a * r.1 + b * r.2 == r.0,
    decreases a,
{
    if a == 0 {
        lemma_gcd_of_zero(b as int);
        (b as int, 0, 1)
    } else {
        lemma_mod_bound(b as int, a as int);
        lemma_fundamental_div_mod(b as int, a as int);
        let rem = (b % a) as nat;
        let (g, x1, y1) = lemma_bezout(rem, a);
        lemma_gcd_step(g, a as int, b as int);
        let q = (b / a) as int;
        assert(a * (y1 - q * x1) + b * x1 == g) by (nonlinear_arith)
            requires
                rem * x1 + a * y1 == g,
                b == a * q + rem,
        ;
        (g, y1 - q * x1, x1)
    }
}

/// A prime and a number that it does not divide have no divisor in common.
pub proof fn lemma_prime_coprime(p: nat, a: nat)
    requires
        is_prime_number(p),
        !divides(p as int, a as int),
    ensures
        is_gcd(1, a as int, p as int),
{
    let (g, x, y) = lemma_bezout(a, p);
    assert(g > 0 && divides(g, a as int) && divides(g, p as int));
    lemma_divisor_le(g, p as int);
    if g >= 2 {
        if g < p {
            assert(!divides(g, p as int));
        }
        assert(g == p);
        assert(false);
    }
}

/// Euclid's lemma: a prime that divides a product divides one of the factors.
pub proof fn lemma_euclid(p: nat, a: nat, b: int)
    requires
        is_prime_number(p),
        divides(p as int, a * b),
    ensures
        divides(p as int, a as int) || divides(p as int, b),
{
    if !divides(p as int, a as int) {
        lemma_prime_coprime(p, a);
        let (g, x, y) = lemma_bezout(a, p);
        crate::numbers::lemma_gcd_unique(g, 1, a as int, p as int);
        assert(a * x + p * y == 1);
        lemma_multiple_divides(p as int, b * y);
        lemma_divides_combination(p as int, a * b, x, p * (b * y));
        assert((a * b) * x + p * (b * y) == b) by (nonlinear_arith)
            requires
                a * x + p * y == 1,
        ;
    }
}

/// The binomial coefficient "`n` over `k`", by Pascal's rule.
pub open spec fn binomial(n: nat, k: nat) -> nat
    decreases n,
{
    if k == 0 {
        1
    } else if n == 0 {
        0
    } else {
        binomial((n - 1) as nat, (k - 1) as nat) + binomial((n - 1) as nat, k)
    }
}

/// The sum of the terms `binomial(n, k) * a^k` for `k` from 0 to `m`.
pub open spec fn binomial_sum(n: nat, a: int, m: nat) -> int
    decreases m,
{
    binomial(n, m) * pow(a, m) + if m == 0 {
        0
    } else {
        binomial_sum(n, a, (m - 1) as nat)
    }
}

/// There is no way to choose more than there is.
pub proof fn lemma_binomial_above(n: nat, k: nat)
    requires
        k > n,
    ensures
        binomial(n, k) == 0,
    decreases n,
{
    if n > 0 {
        lemma_binomial_above((n - 1) as nat, (k - 1) as nat);
        lemma_binomial_above((n - 1) as nat, k);
    }
}

/// There is one way to choose all.
pub proof fn lemma_binomial_full(n: nat)
    ensures
        binomial(n, n) == 1,
    decreases n,
{
    if n > 0 {
        lemma_binomial_full((n - 1) as nat);
        lemma_binomial_above((n - 1) as nat, n);
    }
}

/// The absorption identity: `k * binomial(n, k)` is `n * binomial(n - 1, k - 1)`.
pub proof fn lemma_binomial_absorption(n: nat, k: nat)
    requires
        n >= 1,
        k >= 1,
    ensures
        k * binomial(n, k) == n * binomial((n - 1) as nat, (k - 1) as nat),
    decreases n,
{
    let m = (n - 1) as nat;
    let j = (k - 1) as nat;
    assert(binomial(n, k) == binomial(m, j) + binomial(m, k));
    if n == 1 {
        if k >= 2 {
            lemma_binomial_above(0, j);
        }
        lemma_binomial_above(0, k);
        assert(binomial(0, 0) == 1);
        assert(k * binomial(n, k) == n * binomial(m, j)) by (nonlinear_arith)
            requires
                n == 1,
                binomial(n, k) == binomial(m, j),
                k == 1 || binomial(m, j) == 0,
        ;
    } else {
        lemma_binomial_absorption(m, k);
        let c_mk = binomial(m, k);
        let c_mj = binomial(m, j);
        let c_top = binomial((m - 1) as nat, j);
        assert(k * c_mk == m * c_top);
        if k == 1 {
            assert(c_mj == 1);
            assert(c_top == 1);
            assert(k * (c_mj + c_mk) == n * c_mj) by (nonlinear_arith)
                requires
                    k == 1,
                    c_mj == 1,
                    c_top == 1,
                    k * c_mk == m * c_top,
                    n == m + 1,
            ;
        } else {
            lemma_binomial_absorption(m, j);
            let c_low = binomial((m - 1) as nat, (j - 1) as nat);
            assert(j * c_mj == m * c_low);
            assert(c_mj == c_low + c_top);
            assert(k * (c_mj + c_mk) == n * c_mj) by (nonlinear_arith)
                requires
                    k == j + 1,
                    n == m + 1,
                    j * c_mj == m * c_low,
                    k * c_mk == m * c_top,
                    c_mj == c_low + c_top,
            ;
        }
    }
}

/// A prime divides its binomial coefficients, the first and the last excepted.
pub proof fn lemma_prime_divides_binomial(p: nat, k: nat)
    requires
        is_prime_number(p),
        0 < k < p,
    ensures
        divides(p as int, binomial(p, k) as int),
{
    lemma_binomial_absorption(p, k);
    let c = binomial(p, k);
    let lower = binomial((p - 1) as nat, (k - 1) as nat);
    lemma_multiple_divides(p as int, lower as int);
    assert(divides(p as int, k * (c as int)));
    vstd::arithmetic::div_mod::lemma_small_mod(k, p);
    lemma_euclid(p, k, c as int);
}

/// Pascal's rule, summed: a sum over row `n + 1` is the sum over row `n`
/// plus `a` times the sum over row `n` with one term fewer.
pub proof fn lemma_pascal_sum(n: nat, a: int, m: nat)
    ensures
        binomial_sum(n + 1, a, m) == binomial_sum(n, a, m) + a * (if m == 0 {
            0
        } else {
            binomial_sum(n, a, (m - 1) as nat)
        }),
    decreases m,
{
    reveal(pow);
    if m == 0 {
        assert(binomial(n + 1, 0) == 1 && binomial(n, 0) == 1);
    } else {
        let j = (m - 1) as nat;
        lemma_pascal_sum(n, a, j);
        let prev = if j == 0 {
            0
        } else {
            binomial_sum(n, a, (j - 1) as nat)
        };
        let c_m = binomial(n, m) as int;
        let c_j = binomial(n, j) as int;
        let pm = pow(a, m);
        let pj = pow(a, j);
        assert(binomial(n + 1, m) == c_j + c_m);
        assert(pm == a * pj);
        assert(binomial_sum(n + 1, a, m) == (c_j + c_m) * pm + binomial_sum(n + 1, a, j));
        assert(binomial_sum(n, a, m) == c_m * pm + binomial_sum(n, a, j));
        assert(binomial_sum(n, a, j) == c_j * pj + prev);
        assert((c_j + c_m) * pm + (binomial_sum(n, a, j) + a * prev) == (c_m * pm + binomial_sum(
            n,
            a,
            j,
        )) + a * (c_j * pj + prev)) by (nonlinear_arith)
            requires
                pm == a * pj,
        ;
    }
}

/// The binomial theorem for `a + 1`.
pub proof fn lemma_binomial_theorem(a: int, n: nat)
    ensures
        pow(a + 1, n) == binomial_sum(n, a, n),
    decreases n,
{
    reveal(pow);
    if n == 0 {
        assert(binomial(0, 0) == 1);
    } else {
        let m = (n - 1) as nat;
        lemma_binomial_theorem(a, m);
        lemma_pascal_sum(m, a, n);
        lemma_binomial_above(m, n);
        let s = binomial_sum(m, a, m);
        assert(binomial_sum(m, a, n) == binomial(m, n) * pow(a, n) + s);
        assert(binomial(m, n) * pow(a, n) == 0) by (nonlinear_arith)
            requires
                binomial(m, n) == 0,
        ;
        assert(pow(a + 1, n) == (a + 1) * pow(a + 1, m));
        assert((a + 1) * s == s + a * s) by (nonlinear_arith);
    }
}

/// Modulo a prime, a sum over the prime's row that stops before the last
/// term is its first term, 1.
pub proof fn lemma_binomial_sum_mod_prime(p: nat, a: int, m: nat)
    requires
        is_prime_number(p),
        m < p,
    ensures
        divides(p as int, binomial_sum(p, a, m) - 1),
    decreases m,
{
    reveal(pow);
    if m == 0 {
        assert(binomial(p, 0) == 1);
        assert(binomial_sum(p, a, 0) == 1) by (nonlinear_arith)
            requires
                binomial_sum(p, a, 0) == binomial(p, 0) * pow(a, 0) + 0,
                binomial(p, 0) == 1,
                pow(a, 0) == 1,
        ;
        assert(0int % (p as int) == 0);
    } else {
        lemma_binomial_sum_mod_prime(p, a, (m - 1) as nat);
        lemma_prime_divides_binomial(p, m);
        lemma_divides_product(p as int, binomial(p, m) as int, pow(a, m));
        lemma_divides_difference(
            p as int,
            binomial(p, m) * pow(a, m),
            binomial_sum(p, a, (m - 1) as nat) - 1,
        );
    }
}

/// Modulo a prime `p`, the `p`-th power of `a + 1` is the `p`-th power of `a`, plus 1.
pub proof fn lemma_freshman(p: nat, a: int)
    requires
        is_prime_number(p),
    ensures
        divides(p as int, pow(a + 1, p) - pow(a, p) - 1),
{
    lemma_binomial_theorem(a, p);
    lemma_binomial_sum_mod_prime(p, a, (p - 1) as nat);
    lemma_binomial_full(p);
    assert(binomial_sum(p, a, p) == binomial(p, p) * pow(a, p) + binomial_sum(
        p,
        a,
        (p - 1) as nat,
    ));
    assert(binomial(p, p) * pow(a, p) == pow(a, p)) by (nonlinear_arith)
        requires
            binomial(p, p) == 1,
    ;
}

/// Modulo a prime `p`, the `p`-th power of a number is the number.
pub proof fn lemma_fermat_power(p: nat, a: nat)
    requires
        is_prime_number(p),
    ensures
        divides(p as int, pow(a as int, p) - a),
    decreases a,
{
    if a == 0 {
        vstd::arithmetic::power::lemma0_pow(p);
        assert(0int % (p as int) == 0);
    } else {
        let b = (a - 1) as nat;
        lemma_fermat_power(p, b);
        lemma_freshman(p, b as int);
        lemma_divides_difference(
            p as int,
            pow(b as int + 1, p) - pow(b as int, p) - 1,
            pow(b as int, p) - b,
        );
        assert((pow(b as int + 1, p) - pow(b as int, p) - 1) + (pow(b as int, p) - b) == pow(
            a as int,
            p,
        ) - a);
    }
}

/// Where `d` divides `x - r` and `r` lies from 0 up to `d`, `r` is the
/// remainder of `x`.
pub proof fn lemma_remainder_of(d: int, x: int, r: int)
    requires
        d > 0,
        0 <= r < d,
        divides(d, x - r),
    ensures
        x % d == r,
{
    lemma_divides_witness(d, x - r);
    let k = (x - r) / d;
    vstd::arithmetic::div_mod::lemma_fundamental_div_mod_converse(x, d, k, r);
}

/// Fermat's little theorem: modulo a prime `p`, the power `p - 1` of a
/// number that `p` does not divide is 1.
pub proof fn lemma_fermat(p: nat, a: nat)
    requires
        is_prime_number(p),
        !divides(p as int, a as int),
    ensures
        pow(a as int, (p - 1) as nat) % (p as int) == 1,
{
    reveal(pow);
    lemma_fermat_power(p, a);
    let x = pow(a as int, (p - 1) as nat);
    assert(pow(a as int, p) == a * x);
    assert(a * (x - 1) == pow(a as int, p) - a) by (nonlinear_arith)
        requires
            pow(a as int, p) == a * x,
    ;
    lemma_euclid(p, a, x - 1);
    lemma_remainder_of(p as int, x, 1);
}

/// Modulo a prime `p`, a power of `x` whose exponent is 1 more than a
/// multiple of `p - 1` is `x`.
pub proof fn lemma_power_one_more(p: nat, x: nat, k: nat)
    requires
        is_prime_number(p),
    ensures
        divides(p as int, pow(x as int, (1 + k * (p - 1)) as nat) - x),
{
    let t = (p - 1) as nat;
    assert(k * t >= 0) by (nonlinear_arith)
        requires
            k >= 0,
            t >= 0,
    ;
    let m = (k * t) as nat;
    let y = pow(x as int, m);
    vstd::arithmetic::power::lemma_pow_adds(x as int, 1, m);
    vstd::arithmetic::power::lemma_pow1(x as int);
    assert(pow(x as int, 1 + m) == x * y);
    assert(1 + k * (p - 1) == 1 + m);
    assert(x * y - x == x * (y - 1)) by (nonlinear_arith);
    if divides(p as int, x as int) {
        lemma_divides_product(p as int, x as int, y - 1);
    } else {
        lemma_fermat(p, x);
        let f = pow(x as int, t);
        vstd::arithmetic::power::lemma_pow_multiplies(x as int, t, k);
        assert(t * k == k * t) by (nonlinear_arith);
        assert(pow(f, k) == y);
        vstd::arithmetic::power::lemma_pow_mod_noop(f, k, p as int);
        vstd::arithmetic::power::lemma1_pow(k);
        vstd::arithmetic::div_mod::lemma_small_mod(1, p);
        assert(y % (p as int) == 1);
        lemma_fundamental_div_mod(y, p as int);
        let c = y / (p as int);
        assert(y - 1 == p * c);
        lemma_multiple_divides(p as int, c);
        lemma_divides_product(p as int, y - 1, x as int);
    }
}

/// What two different primes both divide, their product divides.
pub proof fn lemma_two_primes_divide(p: nat, q: nat, m: int)
    requires
        is_prime_number(p),
        is_prime_number(q),
        p != q,
        divides(p as int, m),
        divides(q as int, m),
    ensures
        divides((p * q) as int, m),
{
    lemma_divides_witness(p as int, m);
    let t = m / (p as int);
    assert(m == p * t);
    if divides(q as int, p as int) {
        lemma_divisor_le(q as int, p as int);
        assert(q < p);
        assert(!divides(q as int, p as int));
    }
    lemma_euclid(q, p, t);
    lemma_divides_witness(q as int, t);
    let s = t / (q as int);
    assert(m == (p * q) * s) by (nonlinear_arith)
        requires
            m == p * t,
            t == q * s,
    ;
    assert(p * q > 0) by (nonlinear_arith)
        requires
            p >= 2,
            q >= 2,
    ;
    lemma_multiple_divides((p * q) as int, s);
}

/// Modulo the product of two different primes `p` and `q`, a power of `x`
/// whose exponent is 1 modulo a common multiple of `p - 1` and `q - 1` is `x`.
pub proof fn lemma_power_modulo_product(p: nat, q: nat, z: nat, m: nat, x: nat)
    requires
        is_prime_number(p),
        is_prime_number(q),
        p != q,
        z > 0,
        divides((p - 1) as int, z as int),
        divides((q - 1) as int, z as int),
        m % z == 1,
        x < p * q,
    ensures
        pow(x as int, m) % ((p * q) as int) == x,
{
    lemma_fundamental_div_mod(m as int, z as int);
    let k = m / z;
    assert(m == z * k + 1);
    lemma_divides_witness((p - 1) as int, z as int);
    lemma_divides_witness((q - 1) as int, z as int);
    let sp = (z as int) / ((p - 1) as int);
    let sq = (z as int) / ((q - 1) as int);
    assert(sp >= 0 && sq >= 0) by {
        vstd::arithmetic::div_mod::lemma_div_pos_is_pos(z as int, (p - 1) as int);
        vstd::arithmetic::div_mod::lemma_div_pos_is_pos(z as int, (q - 1) as int);
    }
    assert(k * sp >= 0 && k * sq >= 0) by (nonlinear_arith)
        requires
            k >= 0,
            sp >= 0,
            sq >= 0,
    ;
    let kp = (k * sp) as nat;
    let kq = (k * sq) as nat;
    assert(m == 1 + kp * (p - 1)) by (nonlinear_arith)
        requires
            m == z * k + 1,
            z == (p - 1) * sp,
            kp == k * sp,
    ;
    assert(m == 1 + kq * (q - 1)) by (nonlinear_arith)
        requires
            m == z * k + 1,
            z == (q - 1) * sq,
            kq == k * sq,
    ;
    lemma_power_one_more(p, x, kp);
    lemma_power_one_more(q, x, kq);
    lemma_two_primes_divide(p, q, pow(x as int, m) - x);
    assert(p * q > 0) by (nonlinear_arith)
        requires
            p >= 2,
            q >= 2,
    ;
    lemma_remainder_of((p * q) as int, pow(x as int, m), x as int);
}

} // verus!
