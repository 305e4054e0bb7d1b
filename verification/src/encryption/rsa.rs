//! RSA keys and the transform of single numeric messages under them.

use vstd::prelude::*;
use vstd::arithmetic::power::{lemma_pow_mod_noop, lemma_pow_multiplies, pow};
use vstd::string::{StringExecFns, StringSliceAdditionalSpecFns};
use vstd::utf8::{decode_utf8, valid_utf8};
use num_bigint::BigUint;
use crate::bignum::{
    biguint_bits, biguint_eq, biguint_from_bytes_be, biguint_from_str_radix, biguint_from_u64,
    biguint_modpow, biguint_to_bytes_be, biguint_to_bytes_le, biguint_to_str_radix, biguint_value,
};
use crate::encryption::rsa::generator::derived_from;
use crate::number_theory::lemma_power_modulo_product;
use crate::numbers::{
    be_bytes, be_value, bit_length, is_gcd, is_lcm, is_prime_number, parse_radix, radix_digits,
};
use crate::text::{first_word, second_word, two_words};

pub mod generator;
pub mod rsa_stream;

pub use generator::RSAKeysGenerator;
pub use rsa_stream::{RSAReader, RSAWriter};

verus! {

/// The standard library's error for bytes that are no UTF-8.
#[verifier::external_type_specification]
#[verifier::external_body]
pub struct ExFromUtf8Error(std::string::FromUtf8Error);

/// `String::from_utf8`: the text that the bytes encode in UTF-8, or an error
/// where they encode none.
#[verifier::external_body]
pub(crate) fn string_from_utf8(bytes: Vec<u8>) -> (r: Result<String, std::string::FromUtf8Error>)
    ensures
        match r {
            Ok(s) => valid_utf8(bytes@) && s@ == decode_utf8(bytes@),
            Err(_) => !valid_utf8(bytes@),
        },
{
    String::from_utf8(bytes)
}

/// What the RSA transform makes of `x` under the exponent `k` and the modulus
/// `n`: `x` to the power `k`, reduced modulo `n`.
pub open spec fn rsa_transform(x: nat, k: nat, n: nat) -> nat {
    (pow(x as int, k) % (n as int)) as nat
}

/// The validity predicate of a triple: the probe 2, encrypted and decrypted
/// again, comes back as 2.
pub open spec fn valid_triple(e: nat, d: nat, n: nat) -> bool {
    n != 0 && rsa_transform(rsa_transform(2, e, n), d, n) == 2
}

/// A message in one of its two states, as numbers.
pub enum MessageView {
    Decrypted(nat),
    Encrypted(nat),
}

/// What encryption under `(e, n)` makes of a message: a plaintext is
/// transformed, a ciphertext stays as it is.
pub open spec fn encrypt_view(m: MessageView, e: nat, n: nat) -> MessageView {
    match m {
        MessageView::Decrypted(x) => MessageView::Encrypted(rsa_transform(x, e, n)),
        MessageView::Encrypted(c) => MessageView::Encrypted(c),
    }
}

/// What decryption under `(d, n)` makes of a message: a ciphertext is
/// transformed, a plaintext stays as it is.
pub open spec fn decrypt_view(m: MessageView, d: nat, n: nat) -> MessageView {
    match m {
        MessageView::Encrypted(c) => MessageView::Decrypted(rsa_transform(c, d, n)),
        MessageView::Decrypted(x) => MessageView::Decrypted(x),
    }
}

/// A power of a natural number is not negative.
pub proof fn lemma_pow_nonnegative(x: nat, e: nat)
    ensures
        pow(x as int, e) >= 0,
    decreases e,
{
    reveal(pow);
    if e > 0 {
        lemma_pow_nonnegative(x, (e - 1) as nat);
        assert(x * pow(x as int, (e - 1) as nat) >= 0) by (nonlinear_arith)
            requires
                x >= 0,
                pow(x as int, (e - 1) as nat) >= 0,
        ;
    }
}

/// Transforming twice, under `e` and then under `d`, is transforming once
/// under the product of the two exponents.
pub proof fn lemma_transform_twice(x: nat, e: nat, d: nat, n: nat)
    requires
        n > 0,
    ensures
        rsa_transform(rsa_transform(x, e, n), d, n) == rsa_transform(x, e * d, n),
{
    lemma_pow_mod_noop(pow(x as int, e), d, n as int);
    lemma_pow_multiplies(x as int, e, d);
    lemma_pow_nonnegative(x, e);
}

/// Encrypting a plaintext and decrypting the result gives the plaintext to
/// the power `e * d`, reduced modulo `n`. So the plaintext `x` comes back
/// exactly where that power of `x` is congruent to `x`.
pub proof fn lemma_decrypt_encrypt(x: nat, e: nat, d: nat, n: nat)
    requires
        n > 0,
    ensures
        decrypt_view(encrypt_view(MessageView::Decrypted(x), e, n), d, n) == MessageView::Decrypted(
            rsa_transform(x, e * d, n),
        ),
        x < n && pow(x as int, e * d) % (n as int) == x ==> decrypt_view(
            encrypt_view(MessageView::Decrypted(x), e, n),
            d,
            n,
        ) == MessageView::Decrypted(x),
{
    lemma_transform_twice(x, e, d, n);
}

/// A triple for two different primes gives every plaintext below the
/// modulus back: decrypting what was encrypted is the plaintext. Such a
/// triple passes the validity predicate.
pub proof fn lemma_round_trip_over_primes(x: nat, e: nat, d: nat, n: nat, p: nat, q: nat)
    requires
        is_prime_number(p),
        is_prime_number(q),
        p != q,
        derived_from(e, d, n, p, q),
        x < n,
    ensures
        decrypt_view(encrypt_view(MessageView::Decrypted(x), e, n), d, n) == MessageView::Decrypted(
            x,
        ),
        valid_triple(e, d, n),
{
    let z = choose|z: nat|
        {
            &&& #[trigger] is_lcm(z, (p - 1) as nat, (q - 1) as nat)
            &&& 1 < e < z
            &&& is_gcd(1, e as int, z as int)
            &&& d < z
            &&& (e * d) % z == 1
            &&& n == p * q
        };
    assert(e * d >= 0) by (nonlinear_arith)
        requires
            e >= 0,
            d >= 0,
    ;
    lemma_power_modulo_product(p, q, z, (e * d) as nat, x);
    lemma_decrypt_encrypt(x, e, d, n);
    assert(n >= 6) by (nonlinear_arith)
        requires
            n == p * q,
            p >= 2,
            q >= 2,
            p != q,
    ;
    lemma_power_modulo_product(p, q, z, (e * d) as nat, 2);
    lemma_decrypt_encrypt(2, e, d, n);
}

/// A triple does not pass the validity predicate.
#[derive(Debug)]
pub struct InvalidRSAKey;

/// A text does not denote what it should: a number, or a public key.
#[derive(Debug)]
pub struct ParseError;

/// An RSA key pair: the public exponent, the private exponent and the modulus.
#[derive(Debug)]
pub struct RSAKeys {
    public_key: BigUint,
    private_key: BigUint,
    n_value: BigUint,
}

/// The public half of a key pair.
#[derive(Debug)]
pub struct PublicKey {
    key: BigUint,
    n_value: BigUint,
}

/// The private half of a key pair. It borrows from the pair and cannot
/// outlive it.
#[derive(Debug)]
pub struct PrivateKey<'a> {
    parent: &'a RSAKeys,
    key: BigUint,
    n_value: BigUint,
}

impl Clone for RSAKeys {
    fn clone(&self) -> (r: Self)
        ensures
            r.spec_e() == self.spec_e(),
            r.spec_d() == self.spec_d(),
            r.spec_n() == self.spec_n(),
    {
        RSAKeys {
            public_key: self.public_key.clone(),
            private_key: self.private_key.clone(),
            n_value: self.n_value.clone(),
        }
    }
}

impl Clone for PublicKey {
    fn clone(&self) -> (r: Self)
        ensures
            r.spec_e() == self.spec_e(),
            r.spec_n() == self.spec_n(),
    {
        PublicKey { key: self.key.clone(), n_value: self.n_value.clone() }
    }
}

impl<'a> Clone for PrivateKey<'a> {
    fn clone(&self) -> (r: Self)
        ensures
            r.spec_d() == self.spec_d(),
            r.spec_n() == self.spec_n(),
    {
        PrivateKey { parent: self.parent, key: self.key.clone(), n_value: self.n_value.clone() }
    }
}

/// A message that is either plain or encrypted.
#[derive(Debug)]
pub enum RSAMessage {
    Decrypted(BigUint),
    Encrypted(BigUint),
}

impl PartialEq for RSAMessage {
    fn eq(&self, other: &Self) -> (r: bool) {
        match (self, other) {
            (RSAMessage::Decrypted(a), RSAMessage::Decrypted(b)) => biguint_eq(a, b),
            (RSAMessage::Encrypted(a), RSAMessage::Encrypted(b)) => biguint_eq(a, b),
            _ => false,
        }
    }
}

impl vstd::std_specs::cmp::PartialEqSpecImpl for RSAMessage {
    open spec fn obeys_eq_spec() -> bool {
        true
    }

    open spec fn eq_spec(&self, other: &Self) -> bool {
        self@ == other@
    }
}

impl std::str::FromStr for PublicKey {
    type Err = ParseError;

    fn from_str(s: &str) -> (r: Result<Self, ParseError>)
        ensures
            match r {
                Ok(k) => {
                    &&& parse_radix(first_word(s@), 10) == Some(k.spec_n())
                    &&& parse_radix(second_word(s@), 10) == Some(k.spec_e())
                },
                Err(_) => {
                    ||| parse_radix(first_word(s@), 10) is None
                    ||| parse_radix(second_word(s@), 10) is None
                },
            },
    {
        PublicKey::from_str(s)
    }
}

/// The number of whole bytes in `bits - 1` bits, held to what a `usize` can hold.
fn bytes_below(bits: u64) -> (r: usize)
    requires
        bits >= 1,
    ensures
        r == if (bits - 1) / 8 <= usize::MAX {
            (bits - 1) / 8
        } else {
            usize::MAX as int
        },
{
    let q: u64 = (bits - 1) / 8;
    if q > usize::MAX as u64 {
        usize::MAX
    } else {
        q as usize
    }
}

/// The number of whole bytes that are left of `bits` bits after 11 bytes,
/// held to what a `usize` can hold.
fn bytes_after_padding(bits: u64) -> (r: usize)
    requires
        bits >= 88,
    ensures
        r == if (bits - 88) / 8 <= usize::MAX {
            (bits - 88) / 8
        } else {
            usize::MAX as int
        },
{
    let q: u64 = (bits - 88) / 8;
    if q > usize::MAX as u64 {
        usize::MAX
    } else {
        q as usize
    }
}

impl RSAKeys {
    /// The public exponent.
    pub closed spec fn spec_e(&self) -> nat {
        biguint_value(self.public_key)
    }

    /// The private exponent.
    pub closed spec fn spec_d(&self) -> nat {
        biguint_value(self.private_key)
    }

    /// The modulus.
    pub closed spec fn spec_n(&self) -> nat {
        biguint_value(self.n_value)
    }

    /// Whether the pair passes the validity predicate.
    pub open spec fn spec_valid(&self) -> bool {
        valid_triple(self.spec_e(), self.spec_d(), self.spec_n())
    }

    /// The pair `(public, private, n_value)`, if it passes the validity
    /// predicate.
    pub fn new(public: BigUint, private: BigUint, n_value: BigUint) -> (r: Result<
        Self,
        InvalidRSAKey,
    >)
        ensures
            r is Ok <==> valid_triple(
                biguint_value(public),
                biguint_value(private),
                biguint_value(n_value),
            ),
            r matches Ok(k) ==> k.spec_e() == biguint_value(public) && k.spec_d() == biguint_value(
                private,
            ) && k.spec_n() == biguint_value(n_value),
    {
        let ret = Self { public_key: public, private_key: private, n_value };
        if ret.valid() {
            Ok(ret)
        } else {
            Err(InvalidRSAKey)
        }
    }

    /// The pair `(public, private, n_value)`, whether or not it passes the
    /// validity predicate.
    pub fn new_unchecked(public: BigUint, private: BigUint, n_value: BigUint) -> (r: Self)
        ensures
            r.spec_e() == biguint_value(public),
            r.spec_d() == biguint_value(private),
            r.spec_n() == biguint_value(n_value),
    {
        Self { public_key: public, private_key: private, n_value }
    }

    /// The pair that three decimal texts denote, whether or not it passes
    /// the validity predicate; an error where one of them denotes no number.
    pub fn from_strings(e: String, d: String, n_value: String) -> (r: Result<Self, ParseError>)
        ensures
            match r {
                Ok(k) => {
                    &&& parse_radix(e@, 10) == Some(k.spec_e())
                    &&& parse_radix(d@, 10) == Some(k.spec_d())
                    &&& parse_radix(n_value@, 10) == Some(k.spec_n())
                },
                Err(_) => {
                    ||| parse_radix(e@, 10) is None
                    ||| parse_radix(d@, 10) is None
                    ||| parse_radix(n_value@, 10) is None
                },
            },
    {
        let public_key = match biguint_from_str_radix(e.as_str(), 10) {
            Ok(v) => v,
            Err(_) => { return Err(ParseError); },
        };
        let private_key = match biguint_from_str_radix(d.as_str(), 10) {
            Ok(v) => v,
            Err(_) => { return Err(ParseError); },
        };
        let n_value = match biguint_from_str_radix(n_value.as_str(), 10) {
            Ok(v) => v,
            Err(_) => { return Err(ParseError); },
        };
        Ok(Self { public_key, private_key, n_value })
    }

    pub fn public_key(&self) -> (r: PublicKey)
        ensures
            r.spec_e() == self.spec_e(),
            r.spec_n() == self.spec_n(),
    {
        PublicKey { key: self.public_key.clone(), n_value: self.n_value.clone() }
    }

    pub fn private_key(&self) -> (r: PrivateKey<'_>)
        ensures
            r.spec_d() == self.spec_d(),
            r.spec_n() == self.spec_n(),
    {
        PrivateKey { parent: self, key: self.private_key.clone(), n_value: self.n_value.clone() }
    }

    /// Whether the pair passes the validity predicate. A pair with the
    /// modulus 0 does not.
    pub fn valid(&self) -> (r: bool)
        ensures
            r == self.spec_valid(),
    {
        let zero = biguint_from_u64(0);
        if biguint_eq(&self.n_value, &zero) {
            return false;
        }
        let test_message = biguint_from_u64(2);
        let message = RSAMessage::Decrypted(test_message.clone());
        let encrypted = message.encrypt(self.public_key());
        let decrypt = encrypted.decrypt(self.private_key());
        if let RSAMessage::Decrypted(de) = decrypt {
            biguint_eq(&de, &test_message)
        } else {
            false
        }
    }

    /// The largest message in bytes: the bits of the modulus less 11 bytes.
    pub fn max_message_size(&self) -> (r: usize)
        requires
            bit_length(self.spec_n()) >= 88,
        ensures
            r == if (bit_length(self.spec_n()) - 88) / 8 <= usize::MAX {
                (bit_length(self.spec_n()) - 88) / 8
            } else {
                usize::MAX as int
            },
    {
        let bits = biguint_bits(&self.n_value);
        bytes_after_padding(bits)
    }
}

impl PublicKey {
    /// The public exponent.
    pub closed spec fn spec_e(&self) -> nat {
        biguint_value(self.key)
    }

    /// The modulus.
    pub closed spec fn spec_n(&self) -> nat {
        biguint_value(self.n_value)
    }

    /// The text of a key: the modulus and the exponent in decimal, the
    /// modulus first, one space between them.
    pub open spec fn format_spec(e: nat, n: nat) -> Seq<char> {
        radix_digits(n, 10) + seq![' '] + radix_digits(e, 10)
    }

    /// The public key of the given exponent and modulus.
    pub fn new(key: BigUint, n_value: BigUint) -> (r: Self)
        ensures
            r.spec_e() == biguint_value(key),
            r.spec_n() == biguint_value(n_value),
    {
        PublicKey { key, n_value }
    }

    pub fn key(&self) -> (r: &BigUint)
        ensures
            biguint_value(*r) == self.spec_e(),
    {
        &self.key
    }

    pub fn n_value(&self) -> (r: &BigUint)
        ensures
            biguint_value(*r) == self.spec_n(),
    {
        &self.n_value
    }

    /// The largest message in bytes that the key can carry: one bit less
    /// than the modulus has, in whole bytes.
    pub fn max_message_size(&self) -> (r: usize)
        requires
            self.spec_n() > 0,
        ensures
            r == if (bit_length(self.spec_n()) - 1) / 8 <= usize::MAX {
                (bit_length(self.spec_n()) - 1) / 8
            } else {
                usize::MAX as int
            },
    {
        let bits = biguint_bits(&self.n_value);
        bytes_below(bits)
    }

    /// The key that a text denotes: its first word is the modulus, its
    /// second the exponent, both in decimal. What follows them is not read.
    pub fn from_str(s: &str) -> (r: Result<Self, ParseError>)
        ensures
            match r {
                Ok(k) => {
                    &&& parse_radix(first_word(s@), 10) == Some(k.spec_n())
                    &&& parse_radix(second_word(s@), 10) == Some(k.spec_e())
                },
                Err(_) => {
                    ||| parse_radix(first_word(s@), 10) is None
                    ||| parse_radix(second_word(s@), 10) is None
                },
            },
    {
        let (first, second) = two_words(s);
        let n = match biguint_from_str_radix(first.as_str(), 10) {
            Ok(v) => v,
            Err(_) => { return Err(ParseError); },
        };
        let e = match biguint_from_str_radix(second.as_str(), 10) {
            Ok(v) => v,
            Err(_) => { return Err(ParseError); },
        };
        Ok(Self { key: e, n_value: n })
    }

    /// The key as text.
    pub fn to_string(&self) -> (r: String)
        ensures
            r@ == Self::format_spec(self.spec_e(), self.spec_n()),
    {
        let mut out = biguint_to_str_radix(&self.n_value, 10);
        proof {
            reveal_strlit(" ");
        }
        out.append(" ");
        assert(" "@ =~= seq![' ']);
        let e = biguint_to_str_radix(&self.key, 10);
        out.append(e.as_str());
        out
    }
}

impl<'a> PrivateKey<'a> {
    /// The private exponent.
    pub closed spec fn spec_d(&self) -> nat {
        biguint_value(self.key)
    }

    /// The modulus.
    pub closed spec fn spec_n(&self) -> nat {
        biguint_value(self.n_value)
    }

    pub fn key(&self) -> (r: &BigUint)
        ensures
            biguint_value(*r) == self.spec_d(),
    {
        &self.key
    }

    pub fn n_value(&self) -> (r: &BigUint)
        ensures
            biguint_value(*r) == self.spec_n(),
    {
        &self.n_value
    }

    /// The largest message in bytes: the bits of the modulus less 11 bytes.
    pub fn max_message_size(&self) -> (r: usize)
        requires
            bit_length(self.spec_n()) >= 88,
        ensures
            r == if (bit_length(self.spec_n()) - 88) / 8 <= usize::MAX {
                (bit_length(self.spec_n()) - 88) / 8
            } else {
                usize::MAX as int
            },
    {
        let bits = biguint_bits(&self.n_value);
        bytes_after_padding(bits)
    }
}

impl View for RSAMessage {
    type V = MessageView;

    open spec fn view(&self) -> MessageView {
        match *self {
            RSAMessage::Decrypted(x) => MessageView::Decrypted(biguint_value(x)),
            RSAMessage::Encrypted(c) => MessageView::Encrypted(biguint_value(c)),
        }
    }
}

impl RSAMessage {
    /// The number that the message holds, in either state.
    pub open spec fn value(&self) -> nat {
        match *self {
            RSAMessage::Decrypted(x) => biguint_value(x),
            RSAMessage::Encrypted(c) => biguint_value(c),
        }
    }

    /// The plaintext whose number is the text's UTF-8 bytes, read big-endian.
    pub fn from_message(message: &str) -> (r: Self)
        ensures
            r@ == MessageView::Decrypted(be_value(message.spec_bytes())),
    {
        let bytes = message.as_bytes();
        let big_int = biguint_from_bytes_be(bytes);
        Self::Decrypted(big_int)
    }

    /// The ciphertext that a decimal text denotes; `None` where it denotes
    /// no number.
    pub fn from_encrypted(message: &str) -> (r: Option<Self>)
        ensures
            match r {
                Some(m) => parse_radix(message@, 10) == Some(m.value()) && m is Encrypted,
                None => parse_radix(message@, 10) is None,
            },
    {
        match biguint_from_str_radix(message, 10) {
            Ok(big_int) => Some(Self::Encrypted(big_int)),
            Err(_) => None,
        }
    }

    /// The text of a plaintext: its big-endian bytes read as UTF-8, or the
    /// error where they are none. A ciphertext has no text.
    pub fn into_message(self) -> (r: Option<Result<String, std::string::FromUtf8Error>>)
        ensures
            match r {
                Some(Ok(s)) => self is Decrypted && valid_utf8(be_bytes(self.value())) && s@
                    == decode_utf8(be_bytes(self.value())),
                Some(Err(_)) => self is Decrypted && !valid_utf8(be_bytes(self.value())),
                None => self is Encrypted,
            },
    {
        match self {
            RSAMessage::Decrypted(msg) => {
                let bytes = biguint_to_bytes_be(&msg);
                Some(string_from_utf8(bytes))
            },
            RSAMessage::Encrypted(_) => None,
        }
    }

    /// Encrypts a plaintext under the public key; a ciphertext is handed
    /// back as it is.
    pub fn encrypt(self, public_key: PublicKey) -> (r: Self)
        requires
            self is Decrypted ==> public_key.spec_n() != 0,
        ensures
            r@ == encrypt_view(self@, public_key.spec_e(), public_key.spec_n()),
            self is Encrypted ==> r == self,
    {
        if let Self::Decrypted(message) = self {
            let n = public_key.n_value();
            let public = public_key.key();
            let encrypted = biguint_modpow(&message, public, n);
            Self::Encrypted(encrypted)
        } else {
            self
        }
    }

    /// Decrypts a ciphertext under the private key; a plaintext is handed
    /// back as it is.
    pub fn decrypt(self, private_key: PrivateKey<'_>) -> (r: Self)
        requires
            self is Encrypted ==> private_key.spec_n() != 0,
        ensures
            r@ == decrypt_view(self@, private_key.spec_d(), private_key.spec_n()),
            self is Decrypted ==> r == self,
    {
        if let Self::Encrypted(message) = self {
            let decrypted = biguint_modpow(&message, private_key.key(), private_key.n_value());
            Self::Decrypted(decrypted)
        } else {
            self
        }
    }

    /// The bytes of the number, most significant first.
    pub fn bytes_be(&self) -> (r: Vec<u8>)
        ensures
            r@ == be_bytes(self.value()),
    {
        match self {
            RSAMessage::Decrypted(d) => biguint_to_bytes_be(d),
            RSAMessage::Encrypted(d) => biguint_to_bytes_be(d),
        }
    }

    /// The bytes of the number, least significant first.
    pub fn bytes_le(&self) -> (r: Vec<u8>)
        ensures
            r@ == be_bytes(self.value()).reverse(),
    {
        match self {
            RSAMessage::Decrypted(d) => biguint_to_bytes_le(d),
            RSAMessage::Encrypted(d) => biguint_to_bytes_le(d),
        }
    }

    /// The number of the message, in either state.
    pub fn backing(&self) -> (r: &BigUint)
        ensures
            biguint_value(*r) == self.value(),
    {
        match self {
            RSAMessage::Decrypted(d) => d,
            RSAMessage::Encrypted(d) => d,
        }
    }

    /// The message as text: a ciphertext in decimal, a plaintext as the
    /// text that its bytes encode. A plaintext whose bytes are no UTF-8 has
    /// no text and is excluded.
    pub fn to_string(&self) -> (r: String)
        requires
            self is Decrypted ==> valid_utf8(be_bytes(self.value())),
        ensures
            r@ == (match *self {
                RSAMessage::Decrypted(x) => decode_utf8(be_bytes(biguint_value(x))),
                RSAMessage::Encrypted(c) => radix_digits(biguint_value(c), 10),
            }),
    {
        match self {
            RSAMessage::Decrypted(msg) => {
                let bytes = biguint_to_bytes_be(msg);
                match string_from_utf8(bytes) {
                    Ok(s) => s,
                    Err(_) => String::new(),
                }
            },
            RSAMessage::Encrypted(e) => biguint_to_str_radix(e, 10),
        }
    }
}

} // verus!
