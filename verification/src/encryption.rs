//! The two ciphers of a session and the handshake messages built on them.

use vstd::prelude::*;
use vstd::string::StrSliceExecFns;
use vstd::string::StringExecFns;
use crate::entropy::random_byte;
use crate::numbers::{digit_char, is_plain_digit, lemma_digits_plain, radix_digits};
use crate::text::{is_space, is_word};

pub mod aes_session;
pub mod rsa;
pub mod secure;
pub mod unsecure;

verus! {

/// What went wrong in a handshake.
#[derive(Debug, Clone, Copy, PartialEq, Eq, Structural)]
pub enum HandshakeError {
    /// The channel could not carry a message.
    Transport,
    /// An expected word is missing or wrong, or a nonce does not match.
    Protocol,
    /// A public key or a number could not be read.
    Parse,
    /// No valid RSA key pair could be made.
    KeyValidity,
    /// A received AES key has not 16, 24 or 32 bytes.
    Cipher,
}

/// The text of a nonce: the decimal forms of its bytes, one after the other.
pub open spec fn nonce_text(bytes: Seq<u8>) -> Seq<char>
    decreases bytes.len(),
{
    if bytes.len() == 0 {
        Seq::empty()
    } else {
        nonce_text(bytes.drop_last()) + radix_digits(bytes.last() as nat, 10)
    }
}

/// The character of a decimal digit.
fn decimal_digit(d: u8) -> (r: &'static str)
    requires
        d < 10,
    ensures
        r@ == seq![digit_char(d as nat)],
{
    let digits = "0123456789";
    proof {
        reveal_strlit("0123456789");
    }
    let r = digits.substring_char(d as usize, d as usize + 1);
    assert(r@ =~= seq![digit_char(d as nat)]);
    r
}

/// A byte in decimal.
pub fn byte_decimal(b: u8) -> (r: String)
    ensures
        r@ == radix_digits(b as nat, 10),
{
    let mut out = String::new();
    if b >= 100 {
        out.append(decimal_digit(b / 100));
    }
    if b >= 10 {
        out.append(decimal_digit((b / 10) % 10));
    }
    out.append(decimal_digit(b % 10));
    proof {
        let n = b as nat;
        reveal_with_fuel(radix_digits, 3);
        assert(out@ =~= radix_digits(n, 10));
    }
    out
}

/// The text of the nonce with the given bytes.
pub fn nonce_from_bytes(bytes: &[u8]) -> (r: String)
    ensures
        r@ == nonce_text(bytes@),
{
    let mut ret = String::new();
    let n = bytes.len();
    let mut i: usize = 0;
    assert(bytes@.take(0) =~= Seq::<u8>::empty());
    while i < n
        invariant
            n == bytes@.len(),
            i <= n,
            ret@ == nonce_text(bytes@.take(i as int)),
        decreases n - i,
    {
        let piece = byte_decimal(bytes[i]);
        ret.append(piece.as_str());
        proof {
            let next = bytes@.take(i + 1);
            assert(next.drop_last() =~= bytes@.take(i as int));
            assert(next.last() == bytes@[i as int]);
        }
        i += 1;
    }
    assert(bytes@.take(n as int) =~= bytes@);
    ret
}

/// A fresh nonce: the text of `nonce_size` random bytes.
pub fn generate_nonce(nonce_size: usize) -> (r: String)
    ensures
        exists|bytes: Seq<u8>| bytes.len() == nonce_size && r@ == #[trigger] nonce_text(bytes),
{
    let mut bytes: Vec<u8> = Vec::new();
    let mut i: usize = 0;
    while i < nonce_size
        invariant
            i <= nonce_size,
            bytes@.len() == i,
        decreases nonce_size - i,
    {
        bytes.push(random_byte());
        i += 1;
    }
    nonce_from_bytes(bytes.as_slice())
}

/// The text of a nonce of one byte or more is a word of digits.
pub proof fn lemma_nonce_is_word(bytes: Seq<u8>)
    requires
        bytes.len() > 0,
    ensures
        is_word(nonce_text(bytes)),
    decreases bytes.len(),
{
    let front = nonce_text(bytes.drop_last());
    let last = radix_digits(bytes.last() as nat, 10);
    lemma_digits_plain(bytes.last() as nat, 10);
    if bytes.len() > 1 {
        lemma_nonce_is_word(bytes.drop_last());
    }
    let text = nonce_text(bytes);
    assert(text == front + last);
    assert forall|i: int| 0 <= i < text.len() implies !is_space(#[trigger] text[i]) by {
        if i < front.len() {
            assert(text[i] == front[i]);
        } else {
            assert(text[i] == last[i - front.len()]);
            assert(is_plain_digit(last[i - front.len()]));
        }
    }
}

} // verus!
