//! Mathematical vocabulary for the contracts of this crate: byte and digit
//! representations of natural numbers, divisibility, and truncated division.

use vstd::prelude::*;
use vstd::arithmetic::power2::pow2;
use vstd::arithmetic::div_mod::{
    lemma_fundamental_div_mod, lemma_mod_is_zero, lemma_mod_multiples_basic,
};

verus! {

/// The number that a big-endian byte string denotes; the empty string denotes 0.
pub open spec fn be_value(bytes: Seq<u8>) -> nat
    decreases bytes.len(),
{
    if bytes.len() == 0 {
        0
    } else {
        be_value(bytes.drop_last()) * 256 + bytes.last() as nat
    }
}

/// The shortest big-endian byte string that denotes `n`; for 0 it is the single byte 0.
pub open spec fn be_bytes(n: nat) -> Seq<u8>
    decreases n,
{
    if n < 256 {
        seq![n as u8]
    } else {
        be_bytes(n / 256).push((n % 256) as u8)
    }
}

/// The number of bits needed to write `n` in binary; 0 for 0.
pub open spec fn bit_length(n: nat) -> nat
    decreases n,
{
    if n == 0 {
        0
    } else {
        1 + bit_length(n / 2)
    }
}

/// Bitwise "or" of two natural numbers.
pub open spec fn nat_or(a: nat, b: nat) -> nat
    decreases a,
{
    if a == 0 {
        b
    } else if b == 0 {
        a
    } else {
        2 * nat_or(a / 2, b / 2) + (if a % 2 == 1 || b % 2 == 1 {
            1nat
        } else {
            0nat
        })
    }
}

/// `d` divides `n`.
pub open spec fn divides(d: int, n: int) -> bool {
    d != 0 && n % d == 0
}

/// Whether `n` is prime: it is above 1, and nothing between 1 and `n`
/// divides it.
pub open spec fn is_prime_number(n: nat) -> bool {
    n >= 2 && forall|d: int| 2 <= d < n ==> !#[trigger] divides(d, n as int)
}

/// `g` is the greatest common divisor of `a` and `b`: the largest positive
/// number that divides both, or 0 when both are 0.
pub open spec fn is_gcd(g: int, a: int, b: int) -> bool {
    if a == 0 && b == 0 {
        g == 0
    } else {
        &&& g > 0
        &&& divides(g, a)
        &&& divides(g, b)
        &&& forall|d: int| d > 0 && #[trigger] divides(d, a) && divides(d, b) ==> d <= g
    }
}

/// `l` is the least common multiple of `a` and `b`: the smallest positive
/// number that both divide, or 0 when one of them is 0.
pub open spec fn is_lcm(l: nat, a: nat, b: nat) -> bool {
    if a == 0 || b == 0 {
        l == 0
    } else {
        &&& l > 0
        &&& divides(a as int, l as int)
        &&& divides(b as int, l as int)
        &&& forall|m: int|
            m > 0 && #[trigger] divides(a as int, m) && divides(b as int, m) ==> l <= m
    }
}

/// Quotient of `a` by `b` rounded toward zero.
pub open spec fn trunc_div(a: int, b: int) -> int {
    if a >= 0 {
        if b > 0 {
            a / b
        } else {
            -(a / (-b))
        }
    } else {
        if b > 0 {
            -((-a) / b)
        } else {
            (-a) / (-b)
        }
    }
}

/// Remainder that goes with `trunc_div`; it has the sign of `a`.
pub open spec fn trunc_rem(a: int, b: int) -> int {
    a - b * trunc_div(a, b)
}

/// The value of a character as a digit: `0-9`, then letters of either case from 10.
pub open spec fn digit_value(c: char) -> Option<nat> {
    if '0' <= c <= '9' {
        Some((c as nat - '0' as nat) as nat)
    } else if 'a' <= c <= 'z' {
        Some((c as nat - 'a' as nat + 10) as nat)
    } else if 'A' <= c <= 'Z' {
        Some((c as nat - 'A' as nat + 10) as nat)
    } else {
        None
    }
}

/// The lower-case character for a digit below 36.
pub open spec fn digit_char(d: nat) -> char {
    if d < 10 {
        ('0' as nat + d) as char
    } else {
        ('a' as nat + d - 10) as char
    }
}

/// The number that a digit string denotes in `radix`, most significant digit
/// first. Underscores are skipped; any other character that is no digit of
/// the radix makes the string meaningless.
pub open spec fn digits_value(s: Seq<char>, radix: nat) -> Option<nat>
    decreases s.len(),
{
    if s.len() == 0 {
        Some(0)
    } else {
        match digits_value(s.drop_last(), radix) {
            None => None,
            Some(v) => if s.last() == '_' {
                Some(v)
            } else {
                match digit_value(s.last()) {
                    Some(d) => if d < radix {
                        Some(v * radix + d)
                    } else {
                        None
                    },
                    None => None,
                }
            },
        }
    }
}

/// What a string means as an unsigned number in `radix`: one leading `+` is
/// allowed (unless a second `+` follows), the rest must be non-empty, must not
/// begin with an underscore, and must be a digit string.
pub open spec fn parse_radix(s: Seq<char>, radix: nat) -> Option<nat> {
    let t = if s.len() >= 1 && s[0] == '+' && !(s.len() >= 2 && s[1] == '+') {
        s.skip(1)
    } else {
        s
    };
    if t.len() == 0 || t[0] == '_' {
        None
    } else {
        digits_value(t, radix)
    }
}

/// The digits of `n` in `radix`, most significant first, in lower case, with
/// no leading zero; "0" for 0.
pub open spec fn radix_digits(n: nat, radix: nat) -> Seq<char>
    recommends
        2 <= radix <= 36,
    decreases n,
{
    if n < radix || radix < 2 {
        seq![digit_char(n)]
    } else {
        proof {
            assert(n / radix < n) by (nonlinear_arith)
                requires
                    radix >= 2,
                    n >= radix,
            ;
        }
        radix_digits(n / radix, radix).push(digit_char(n % radix))
    }
}

/// A positive divisor of a positive number is not larger than the number.
pub proof fn lemma_divisor_le(d: int, n: int)
    requires
        d > 0,
        n > 0,
        divides(d, n),
    ensures
        d <= n,
{
    lemma_mod_is_zero(n as nat, d as nat);
}

/// What divides `a` and `r` divides `a * q + r`.
pub proof fn lemma_divides_combination(d: int, a: int, q: int, r: int)
    requires
        d > 0,
        divides(d, a),
        divides(d, r),
    ensures
        divides(d, a * q + r),
{
    lemma_fundamental_div_mod(a, d);
    lemma_fundamental_div_mod(r, d);
    let ka = a / d;
    let kr = r / d;
    assert(a * q + r == (ka * q + kr) * d) by (nonlinear_arith)
        requires
            a == d * ka,
            r == d * kr,
    ;
    lemma_mod_multiples_basic(ka * q + kr, d);
}

/// Two numbers have one greatest common divisor.
pub proof fn lemma_gcd_unique(g1: int, g2: int, a: int, b: int)
    requires
        is_gcd(g1, a, b),
        is_gcd(g2, a, b),
    ensures
        g1 == g2,
{
    if !(a == 0 && b == 0) {
        assert(divides(g1, a) && divides(g1, b));
        assert(divides(g2, a) && divides(g2, b));
    }
}

/// Euclid's step: for `a > 0`, the greatest common divisor of `b % a` and
/// `a` is that of `a` and `b`.
pub proof fn lemma_gcd_step(g: int, a: int, b: int)
    requires
        a > 0,
        b >= 0,
        is_gcd(g, b % a, a),
    ensures
        is_gcd(g, a, b),
{
    lemma_fundamental_div_mod(b, a);
    let q = b / a;
    let r = b % a;
    assert(a * q + r == b);
    lemma_divides_combination(g, a, q, r);
    assert forall|d: int| d > 0 && #[trigger] divides(d, a) && divides(d, b) implies d <= g by {
        lemma_divides_combination(d, a, -q, b);
        assert(a * (-q) + b == r) by (nonlinear_arith)
            requires
                a * q + r == b,
        ;
        assert(divides(d, r));
    }
}

/// The greatest common divisor of 0 and `b` is `b`.
pub proof fn lemma_gcd_of_zero(b: int)
    requires
        b >= 0,
    ensures
        is_gcd(b, 0, b),
{
    if b > 0 {
        assert(0int % b == 0);
        assert(b % b == 0) by {
            vstd::arithmetic::div_mod::lemma_mod_self_0(b);
        }
        assert forall|d: int| d > 0 && #[trigger] divides(d, 0) && divides(d, b) implies d <= b by {
            lemma_divisor_le(d, b);
        }
    }
}

/// A byte string that begins with a byte other than 0 denotes a number other than 0.
pub proof fn lemma_be_value_positive(bytes: Seq<u8>)
    requires
        bytes.len() > 0,
        bytes[0] != 0,
    ensures
        be_value(bytes) > 0,
    decreases bytes.len(),
{
    if bytes.len() > 1 {
        lemma_be_value_positive(bytes.drop_last());
    }
}

/// A byte string that begins with a byte other than 0 is the shortest for
/// the number that it denotes.
pub proof fn lemma_be_bytes_of_value(bytes: Seq<u8>)
    requires
        bytes.len() > 0,
        bytes[0] != 0,
    ensures
        be_bytes(be_value(bytes)) == bytes,
    decreases bytes.len(),
{
    if bytes.len() == 1 {
        assert(bytes.drop_last().len() == 0);
        assert(be_value(bytes.drop_last()) == 0);
        assert(be_value(bytes) == bytes[0] as nat);
        assert(be_bytes(be_value(bytes)) =~= bytes);
    } else {
        let front = bytes.drop_last();
        lemma_be_value_positive(front);
        lemma_be_bytes_of_value(front);
        let v = be_value(bytes);
        assert(v == be_value(front) * 256 + bytes.last() as nat);
        assert(v / 256 == be_value(front) && v % 256 == bytes.last() as nat);
        assert(be_bytes(v) =~= bytes);
    }
}

/// The character of a digit below 36 has that digit's value, and is neither
/// a sign nor an underscore.
pub proof fn lemma_digit_char_value(d: nat)
    requires
        d < 36,
    ensures
        digit_value(digit_char(d)) == Some(d),
        digit_char(d) != '+',
        digit_char(d) != '_',
{
}

/// The digits of a number begin with a digit, and denote the number.
pub proof fn lemma_digits_value_of_digits(n: nat, radix: nat)
    requires
        2 <= radix <= 36,
    ensures
        radix_digits(n, radix).len() > 0,
        exists|d: nat| d < radix && radix_digits(n, radix)[0] == #[trigger] digit_char(d),
        digits_value(radix_digits(n, radix), radix) == Some(n),
    decreases n,
{
    let s = radix_digits(n, radix);
    if n < radix {
        lemma_digit_char_value(n);
        assert(s.drop_last().len() == 0);
        assert(digits_value(s.drop_last(), radix) == Some(0nat));
        assert(0 * radix + n == n) by (nonlinear_arith);
        assert(s[0] == digit_char(n));
    } else {
        assert(n / radix < n) by (nonlinear_arith)
            requires
                radix >= 2,
                n >= radix,
        ;
        lemma_digits_value_of_digits(n / radix, radix);
        let front = radix_digits(n / radix, radix);
        assert(s.drop_last() =~= front);
        assert(s[0] == front[0]);
        let d = n % radix;
        assert(d < radix) by (nonlinear_arith)
            requires
                radix >= 2,
                d == n % radix,
        ;
        lemma_digit_char_value(d);
        assert((n / radix) * radix + d == n) by (nonlinear_arith)
            requires
                radix >= 2,
                d == n % radix,
        ;
    }
}

/// A number's digits are read back as the number.
pub proof fn lemma_parse_of_digits(n: nat, radix: nat)
    requires
        2 <= radix <= 36,
    ensures
        parse_radix(radix_digits(n, radix), radix) == Some(n),
{
    lemma_digits_value_of_digits(n, radix);
    let s = radix_digits(n, radix);
    let d = choose|d: nat| d < radix && s[0] == #[trigger] digit_char(d);
    lemma_digit_char_value(d);
}

/// Whether a character is a digit or a lower-case letter.
pub open spec fn is_plain_digit(c: char) -> bool {
    ('0' <= c <= '9') || ('a' <= c <= 'z')
}

/// The digits of a number are digits and lower-case letters, one at least.
pub proof fn lemma_digits_plain(n: nat, radix: nat)
    requires
        2 <= radix <= 36,
    ensures
        radix_digits(n, radix).len() > 0,
        forall|i: int|
            0 <= i < radix_digits(n, radix).len() ==> is_plain_digit(
                #[trigger] radix_digits(n, radix)[i],
            ),
    decreases n,
{
    if n >= radix {
        assert(n / radix < n) by (nonlinear_arith)
            requires
                radix >= 2,
                n >= radix,
        ;
        lemma_digits_plain(n / radix, radix);
        let d = n % radix;
        assert(d < radix) by (nonlinear_arith)
            requires
                radix >= 2,
                d == n % radix,
        ;
        assert(is_plain_digit(digit_char(d)));
    } else {
        assert(is_plain_digit(digit_char(n)));
    }
}

/// A byte string denotes a number below two to the power of its bits.
pub proof fn lemma_be_value_bound(bytes: Seq<u8>)
    ensures
        be_value(bytes) < pow2(8 * bytes.len()),
    decreases bytes.len(),
{
    vstd::arithmetic::power2::lemma2_to64();
    if bytes.len() > 0 {
        let front = bytes.drop_last();
        lemma_be_value_bound(front);
        vstd::arithmetic::power2::lemma_pow2_adds(8 * front.len(), 8);
        assert(8 * front.len() + 8 == 8 * bytes.len());
        assert(be_value(front) * 256 + (bytes.last() as nat) < pow2(8 * front.len()) * 256)
            by (nonlinear_arith)
            requires
                be_value(front) < pow2(8 * front.len()),
                (bytes.last() as nat) < 256,
        ;
    }
}

/// A number above 0 lies between the two powers of two that its bits tell.
pub proof fn lemma_bit_length_bounds(n: nat)
    requires
        n > 0,
    ensures
        pow2((bit_length(n) - 1) as nat) <= n < pow2(bit_length(n)),
    decreases n,
{
    vstd::arithmetic::power2::lemma2_to64();
    if n == 1 {
        assert(bit_length(0) == 0);
        assert(bit_length(1) == 1);
    } else {
        lemma_bit_length_bounds(n / 2);
        let b = bit_length(n / 2);
        vstd::arithmetic::power2::lemma_pow2_unfold(b);
        vstd::arithmetic::power2::lemma_pow2_unfold(b + 1);
    }
}

/// A larger exponent gives no smaller power of two.
pub proof fn lemma_pow2_monotonic(a: nat, b: nat)
    requires
        a <= b,
    ensures
        pow2(a) <= pow2(b),
{
    if a < b {
        vstd::arithmetic::power2::lemma_pow2_strictly_increases(a, b);
    }
}

} // verus!
