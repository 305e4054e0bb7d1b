//! The part of the handshake that runs under RSA: the exchange of nonces, the
//! acknowledgment, and the delivery of the AES key. Each function makes one
//! message or reads one; the messages are plain text here, and are framed and
//! encrypted elsewhere.

use vstd::prelude::*;
use vstd::string::StringExecFns;
use crate::bignum::{biguint_from_str_radix, biguint_to_bytes_be};
use crate::encryption::HandshakeError;
use crate::encryption::aes_session::{valid_key_len, AESManager};
use crate::encryption::unsecure::same_text;
use crate::numbers::{
    be_bytes, be_value, is_plain_digit, lemma_be_bytes_of_value, lemma_digits_plain,
    lemma_parse_of_digits, parse_radix, radix_digits,
};
use crate::text::{
    first_field, first_word, free_of, is_space, is_word, lemma_fields_of_pair,
    lemma_trailing_spaces_suffix, lemma_words_of_pair, lemma_words_of_single, second_field,
    second_word, trim, trimmed, two_fields, two_words,
};

verus! {

/// The word that opens the exchange under RSA.
pub const HANDSHAKE_START_PHRASE: &'static str = "SECOP_BEGIN";

/// The word that acknowledges the exchange.
pub const SUCCESS_PHRASE: &'static str = "SUCCESS";

/// The word that announces the AES key.
pub const AES_KEY_PREFIX: &'static str = "AES_KEY";

/// The client's opening line under RSA: the start phrase, a space, the nonce.
pub open spec fn start_line(nonce: Seq<char>) -> Seq<char> {
    HANDSHAKE_START_PHRASE@ + " "@ + nonce + "\n"@
}

/// What the server answers to a line under RSA: the client's nonce and its
/// own where the line opens the exchange, nothing where it does not, and a
/// protocol error where it opens the exchange and holds no nonce.
pub open spec fn challenge_for(server_nonce: Seq<char>, line: Seq<char>) -> Result<
    Option<Seq<char>>,
    HandshakeError,
> {
    if first_word(line) == HANDSHAKE_START_PHRASE@ {
        if second_word(line).len() == 0 {
            Err(HandshakeError::Protocol)
        } else {
            Ok(Some(second_word(line) + " "@ + server_nonce + "\n"@))
        }
    } else {
        Ok(None)
    }
}

/// What the client answers to the server's challenge: the server's nonce on
/// a line of its own, where the challenge begins with the client's nonce
/// and holds a second word.
pub open spec fn response_for(my_nonce: Seq<char>, line: Seq<char>) -> Result<
    Seq<char>,
    HandshakeError,
> {
    if first_word(line).len() == 0 || first_word(line) != my_nonce || second_word(line).len()
        == 0 {
        Err(HandshakeError::Protocol)
    } else {
        Ok(second_word(line) + "\n"@)
    }
}

/// The line that delivers an AES key with the text `key`.
pub open spec fn aes_key_line(key: Seq<char>) -> Seq<char> {
    AES_KEY_PREFIX@ + ":"@ + key + "\n"@
}

/// The AES key that a line delivers: the line without the white space at
/// its ends must be the prefix, a colon and a hexadecimal number whose
/// shortest byte string has the length of a key.
pub open spec fn delivered_key(line: Seq<char>) -> Result<Seq<u8>, HandshakeError> {
    let t = trimmed(line);
    if first_field(t, ':') != AES_KEY_PREFIX@ {
        Err(HandshakeError::Protocol)
    } else {
        match second_field(t, ':') {
            None => Err(HandshakeError::Protocol),
            Some(body) => match parse_radix(body, 16) {
                None => Err(HandshakeError::Parse),
                Some(n) => if valid_key_len(be_bytes(n).len()) {
                    Ok(be_bytes(n))
                } else {
                    Err(HandshakeError::Cipher)
                },
            },
        }
    }
}

/// Client: the line that begins the exchange under RSA.
pub fn handshake_start(my_nonce: &str) -> (r: String)
    ensures
        r@ == start_line(my_nonce@),
{
    let mut out = String::from_str(HANDSHAKE_START_PHRASE);
    out.append(" ");
    out.append(my_nonce);
    out.append("\n");
    out
}

/// Server: the challenge for the client's opening line, if it gets one.
pub fn server_ack(server_nonce: &str, line: &str) -> (r: Result<Option<String>, HandshakeError>)
    ensures
        match r {
            Ok(Some(reply)) => challenge_for(server_nonce@, line@) == Ok::<
                Option<Seq<char>>,
                HandshakeError,
            >(Some(reply@)),
            Ok(None) => challenge_for(server_nonce@, line@) == Ok::<
                Option<Seq<char>>,
                HandshakeError,
            >(None),
            Err(e) => challenge_for(server_nonce@, line@) == Err::<
                Option<Seq<char>>,
                HandshakeError,
            >(e),
        },
{
    let (first, second) = two_words(line);
    if !same_text(first.as_str(), HANDSHAKE_START_PHRASE) {
        return Ok(None);
    }
    if second.as_str().is_empty() {
        return Err(HandshakeError::Protocol);
    }
    let mut reply = second;
    reply.append(" ");
    reply.append(server_nonce);
    reply.append("\n");
    Ok(Some(reply))
}

/// Client: the response to the server's challenge.
pub fn receive_and_repeat(my_nonce: &str, line: &str) -> (r: Result<String, HandshakeError>)
    ensures
        match r {
            Ok(reply) => response_for(my_nonce@, line@) == Ok::<Seq<char>, HandshakeError>(
                reply@,
            ),
            Err(e) => response_for(my_nonce@, line@) == Err::<Seq<char>, HandshakeError>(e),
        },
{
    let (first, second) = two_words(line);
    if first.as_str().is_empty() || !same_text(first.as_str(), my_nonce) {
        return Err(HandshakeError::Protocol);
    }
    if second.as_str().is_empty() {
        return Err(HandshakeError::Protocol);
    }
    let mut reply = second;
    reply.append("\n");
    Ok(reply)
}

/// Server: whether the client's response is the server's nonce.
pub fn client_repeat_correct(server_nonce: &str, line: &str) -> (r: bool)
    ensures
        r == (trimmed(line@) == server_nonce@),
{
    let t = trim(line);
    same_text(t.as_str(), server_nonce)
}

/// Client: whether the server acknowledged the exchange.
pub fn encryption_successful(line: &str) -> (r: bool)
    ensures
        r == (trimmed(line@) == SUCCESS_PHRASE@),
{
    let t = trim(line);
    same_text(t.as_str(), SUCCESS_PHRASE)
}

/// Client: the line that delivers the AES key.
pub fn begin_aes_encryption_client(manager: &AESManager) -> (r: String)
    ensures
        r@ == aes_key_line(AESManager::format_spec(manager.key_bytes())),
{
    let mut out = String::from_str(AES_KEY_PREFIX);
    out.append(":");
    let text = manager.parsable_string();
    out.append(text.as_str());
    out.append("\n");
    out
}

/// Server: the AES manager for the key that a line delivers.
pub fn get_aes_key(line: &str) -> (r: Result<AESManager, HandshakeError>)
    ensures
        match r {
            Ok(m) => delivered_key(line@) == Ok::<Seq<u8>, HandshakeError>(m.key_bytes()),
            Err(e) => delivered_key(line@) == Err::<Seq<u8>, HandshakeError>(e),
        },
{
    let t = trim(line);
    let (prefix, rest) = two_fields(t.as_str(), ':');
    if !same_text(prefix.as_str(), AES_KEY_PREFIX) {
        return Err(HandshakeError::Protocol);
    }
    let body = match rest {
        None => { return Err(HandshakeError::Protocol); },
        Some(body) => body,
    };
    let number = match biguint_from_str_radix(body.as_str(), 16) {
        Ok(v) => v,
        Err(_) => { return Err(HandshakeError::Parse); },
    };
    match AESManager::from_key_bytes(biguint_to_bytes_be(&number)) {
        Ok(m) => Ok(m),
        Err(_) => Err(HandshakeError::Cipher),
    }
}

/// The exchange of nonces goes through: the server answers the client's
/// opening line with both nonces, the client answers that with the server's
/// nonce, and the server finds its nonce in that answer.
pub proof fn lemma_nonces_are_exchanged(client_nonce: Seq<char>, server_nonce: Seq<char>)
    requires
        is_word(client_nonce),
        is_word(server_nonce),
    ensures
        challenge_for(server_nonce, start_line(client_nonce)) == Ok::<
            Option<Seq<char>>,
            HandshakeError,
        >(Some(client_nonce + " "@ + server_nonce + "\n"@)),
        response_for(client_nonce, client_nonce + " "@ + server_nonce + "\n"@) == Ok::<
            Seq<char>,
            HandshakeError,
        >(server_nonce + "\n"@),
        trimmed(server_nonce + "\n"@) == server_nonce,
{
    reveal_strlit("SECOP_BEGIN");
    reveal_strlit(" ");
    reveal_strlit("\n");
    let phrase = HANDSHAKE_START_PHRASE@;
    assert(is_word(phrase));
    assert(" "@ =~= seq![' ']);
    assert(is_space("\n"@[0]));
    lemma_words_of_pair(phrase, client_nonce, "\n"@);
    lemma_words_of_pair(client_nonce, server_nonce, "\n"@);
    lemma_words_of_single(server_nonce, "\n"@);
}

/// The success phrase on a line of its own is read as the success phrase.
pub proof fn lemma_success_is_read()
    ensures
        trimmed(SUCCESS_PHRASE@ + "\n"@) == SUCCESS_PHRASE@,
{
    reveal_strlit("SUCCESS");
    reveal_strlit("\n");
    assert(is_word(SUCCESS_PHRASE@));
    assert(is_space("\n"@[0]));
    lemma_words_of_single(SUCCESS_PHRASE@, "\n"@);
}

/// The line that delivers a key that begins with a byte other than 0 is
/// read as that key.
pub proof fn lemma_key_is_delivered(key: Seq<u8>)
    requires
        valid_key_len(key.len()),
        key[0] != 0,
    ensures
        delivered_key(aes_key_line(AESManager::format_spec(key))) == Ok::<
            Seq<u8>,
            HandshakeError,
        >(key),
{
    reveal_strlit("AES_KEY");
    reveal_strlit(":");
    reveal_strlit("\n");
    let n = be_value(key);
    let body = radix_digits(n, 16);
    lemma_digits_plain(n, 16);
    lemma_parse_of_digits(n, 16);
    lemma_be_bytes_of_value(key);
    let prefix = AES_KEY_PREFIX@;
    let text = prefix + seq![':'] + body;
    let line = aes_key_line(body);
    assert(":"@ =~= seq![':']);
    assert(line =~= text + "\n"@);
    assert(!is_space(text[0]));
    assert(text.last() == body.last());
    assert(is_plain_digit(body[body.len() - 1]));
    assert(line.skip(0) =~= line);
    assert(!is_space(line[0])) by {
        assert(line[0] == text[0]);
    }
    assert(is_space("\n"@[0]));
    lemma_trailing_spaces_suffix(text, "\n"@);
    assert(line.take(line.len() - 1) =~= text);
    assert(trimmed(line) == text);
    assert(free_of(prefix, ':'));
    assert(free_of(body, ':')) by {
        assert forall|i: int| 0 <= i < body.len() implies #[trigger] body[i] != ':' by {
            assert(is_plain_digit(body[i]));
        }
    }
    lemma_fields_of_pair(prefix, body, ':');
}

} // verus!
