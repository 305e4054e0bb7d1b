//! The clear-text part of the handshake: the liveness probe and the exchange
//! of public keys. Each function makes one message or reads one.

use vstd::prelude::*;
use vstd::string::StringExecFns;
use crate::encryption::HandshakeError;
use crate::encryption::rsa::PublicKey;
use crate::numbers::{
    is_plain_digit, lemma_digits_plain, lemma_parse_of_digits, parse_radix, radix_digits,
};
use crate::text::{
    first_field, first_word, free_of, is_space, is_word, lemma_fields_of_pair,
    lemma_trailing_spaces_suffix, lemma_words_of_pair, lemma_words_of_single, second_field,
    second_word, trim, trimmed, two_fields, two_words,
};

verus! {

/// The word that opens the handshake.
pub const HANDSHAKE_START_PHRASE: &'static str = "COM_BEGIN";

/// The word that announces a public key.
pub const PUBLIC_KEY_PREFIX: &'static str = "RSA";

/// Whether two texts are the same.
pub fn same_text(a: &str, b: &str) -> (r: bool)
    ensures
        r == (a@ == b@),
{
    String::from_str(a) == String::from_str(b)
}

/// The client's opening line: the start phrase, a space, the nonce.
pub open spec fn start_line(nonce: Seq<char>) -> Seq<char> {
    HANDSHAKE_START_PHRASE@ + " "@ + nonce + "\n"@
}

/// The line that announces a public key with the text `key`.
pub open spec fn public_key_line(key: Seq<char>) -> Seq<char> {
    PUBLIC_KEY_PREFIX@ + ":"@ + key + "\n"@
}

/// What the server answers to a line: the client's nonce on a line of its
/// own where the line opens the handshake, nothing where it does not, and a
/// protocol error where it opens the handshake and holds no nonce.
pub open spec fn ack_for(line: Seq<char>) -> Result<Option<Seq<char>>, HandshakeError> {
    if first_word(line) == HANDSHAKE_START_PHRASE@ {
        if second_word(line).len() == 0 {
            Err(HandshakeError::Protocol)
        } else {
            Ok(Some(second_word(line) + "\n"@))
        }
    } else {
        Ok(None)
    }
}

/// The public key that a line announces, as modulus and exponent: the line
/// without the white space at its ends must be the prefix, a colon and the
/// text of a key.
pub open spec fn announced_key(line: Seq<char>) -> Result<(nat, nat), HandshakeError> {
    let t = trimmed(line);
    if first_field(t, ':') != PUBLIC_KEY_PREFIX@ {
        Err(HandshakeError::Protocol)
    } else {
        match second_field(t, ':') {
            None => Err(HandshakeError::Protocol),
            Some(body) => match (
                parse_radix(first_word(body), 10),
                parse_radix(second_word(body), 10),
            ) {
                (Some(n), Some(e)) => Ok((n, e)),
                _ => Err(HandshakeError::Parse),
            },
        }
    }
}

/// Client: the line that begins a handshake.
pub fn handshake_start(start_nonce: &str) -> (r: String)
    ensures
        r@ == start_line(start_nonce@),
{
    let mut out = String::from_str(HANDSHAKE_START_PHRASE);
    out.append(" ");
    out.append(start_nonce);
    out.append("\n");
    out
}

/// Server: the answer to the client's first line, if it gets one.
pub fn server_ack(line: &str) -> (r: Result<Option<String>, HandshakeError>)
    ensures
        match r {
            Ok(Some(reply)) => ack_for(line@) == Ok::<Option<Seq<char>>, HandshakeError>(
                Some(reply@),
            ),
            Ok(None) => ack_for(line@) == Ok::<Option<Seq<char>>, HandshakeError>(None),
            Err(e) => ack_for(line@) == Err::<Option<Seq<char>>, HandshakeError>(e),
        },
{
    let (first, second) = two_words(line);
    if same_text(first.as_str(), HANDSHAKE_START_PHRASE) {
        if second.as_str().is_empty() {
            Err(HandshakeError::Protocol)
        } else {
            let mut reply = second;
            reply.append("\n");
            Ok(Some(reply))
        }
    } else {
        Ok(None)
    }
}

/// Client: whether the server's answer is the nonce that was sent.
pub fn receive_ack(start_nonce: &str, line: &str) -> (r: bool)
    ensures
        r == (trimmed(line@) == start_nonce@),
{
    let t = trim(line);
    same_text(t.as_str(), start_nonce)
}

/// The line that announces a public key.
pub fn send_public_key(key: &PublicKey) -> (r: String)
    ensures
        r@ == public_key_line(PublicKey::format_spec(key.spec_e(), key.spec_n())),
{
    let mut out = String::from_str(PUBLIC_KEY_PREFIX);
    out.append(":");
    let text = key.to_string();
    out.append(text.as_str());
    out.append("\n");
    out
}

/// The public key that a line announces.
pub fn receive_public_key(line: &str) -> (r: Result<PublicKey, HandshakeError>)
    ensures
        match r {
            Ok(k) => announced_key(line@) == Ok::<(nat, nat), HandshakeError>(
                (k.spec_n(), k.spec_e()),
            ),
            Err(e) => announced_key(line@) == Err::<(nat, nat), HandshakeError>(e),
        },
{
    let t = trim(line);
    let (prefix, rest) = two_fields(t.as_str(), ':');
    if !same_text(prefix.as_str(), PUBLIC_KEY_PREFIX) {
        return Err(HandshakeError::Protocol);
    }
    match rest {
        None => Err(HandshakeError::Protocol),
        Some(body) => match PublicKey::from_str(body.as_str()) {
            Ok(k) => Ok(k),
            Err(_) => Err(HandshakeError::Parse),
        },
    }
}

/// The server answers the client's opening line with the client's nonce,
/// and the client finds its nonce in that answer.
pub proof fn lemma_probe_is_answered(nonce: Seq<char>)
    requires
        is_word(nonce),
    ensures
        ack_for(start_line(nonce)) == Ok::<Option<Seq<char>>, HandshakeError>(
            Some(nonce + "\n"@),
        ),
        trimmed(nonce + "\n"@) == nonce,
{
    reveal_strlit("COM_BEGIN");
    reveal_strlit(" ");
    reveal_strlit("\n");
    let phrase = HANDSHAKE_START_PHRASE@;
    assert(is_word(phrase));
    assert(" "@ =~= seq![' ']);
    assert(is_space("\n"@[0]));
    lemma_words_of_pair(phrase, nonce, "\n"@);
    lemma_words_of_single(nonce, "\n"@);
}

/// The line that announces a public key is read as that key.
pub proof fn lemma_public_key_is_read(e: nat, n: nat)
    ensures
        announced_key(public_key_line(PublicKey::format_spec(e, n))) == Ok::<
            (nat, nat),
            HandshakeError,
        >((n, e)),
{
    reveal_strlit("RSA");
    reveal_strlit(":");
    reveal_strlit("\n");
    let dn = radix_digits(n, 10);
    let de = radix_digits(e, 10);
    lemma_digits_plain(n, 10);
    lemma_digits_plain(e, 10);
    lemma_parse_of_digits(n, 10);
    lemma_parse_of_digits(e, 10);
    let body = dn + seq![' '] + de;
    assert(body =~= PublicKey::format_spec(e, n));
    let prefix = PUBLIC_KEY_PREFIX@;
    let text = prefix + seq![':'] + body;
    let line = public_key_line(body);
    assert(":"@ =~= seq![':']);
    assert(line =~= text + "\n"@);
    assert(is_word(dn)) by {
        assert forall|i: int| 0 <= i < dn.len() implies !is_space(#[trigger] dn[i]) by {
            assert(is_plain_digit(dn[i]));
        }
    }
    assert(is_word(de)) by {
        assert forall|i: int| 0 <= i < de.len() implies !is_space(#[trigger] de[i]) by {
            assert(is_plain_digit(de[i]));
        }
    }
    // the line without its line feed is what is left after trimming
    assert(!is_space(text[0]));
    assert(text.last() == de.last());
    assert(is_plain_digit(de[de.len() - 1]));
    assert(line.skip(0) =~= line);
    assert(!is_space(line[0])) by {
        assert(line[0] == text[0]);
    }
    assert(is_space("\n"@[0]));
    lemma_trailing_spaces_suffix(text, "\n"@);
    assert(line.take(line.len() - 1) =~= text);
    assert(trimmed(line) == text);
    // its fields are the prefix and the key
    assert(free_of(prefix, ':'));
    assert(free_of(body, ':')) by {
        assert forall|i: int| 0 <= i < body.len() implies #[trigger] body[i] != ':' by {
            if i < dn.len() {
                assert(body[i] == dn[i]);
                assert(is_plain_digit(dn[i]));
            } else if i > dn.len() {
                assert(body[i] == de[i - dn.len() - 1]);
                assert(is_plain_digit(de[i - dn.len() - 1]));
            }
        }
    }
    lemma_fields_of_pair(prefix, body, ':');
    // the key's words are the modulus and the exponent
    lemma_words_of_pair(dn, de, Seq::<char>::empty());
    assert(dn + seq![' '] + de + Seq::<char>::empty() =~= body);
}

} // verus!
