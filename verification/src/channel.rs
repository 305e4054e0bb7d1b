//! One peer's end of the channel once public keys are exchanged. Each line
//! on the channel is one RSA ciphertext in decimal. A text line of the
//! protocol is cut into as many such lines as the other peer's key asks for,
//! and the lines that arrive are decrypted and put together again until a
//! text line is whole.

use vstd::prelude::*;
use vstd::slice::slice_subrange;
use vstd::string::StringSliceAdditionalSpecFns;
use vstd::utf8::{
    decode_utf8, encode_utf8, encode_utf8_decode_utf8, encode_utf8_valid_utf8, is_ascii_chars,
    is_ascii_chars_encode_utf8, valid_utf8,
};
use crate::bignum::{biguint_eq, biguint_from_u64};
use crate::encryption::HandshakeError;
use crate::encryption::rsa::{string_from_utf8, PublicKey, RSAKeys};
use crate::encryption::rsa::generator::derived_from;
use crate::encryption::rsa::rsa_stream::{
    bytes_of_line, lemma_line_round_trip, line_capacity, line_for, min_nat, RSAReader, RSAWriter,
};
use crate::numbers::is_prime_number;

verus! {

/// The number of bytes that `s` begins with before its first line feed.
pub open spec fn line_len(s: Seq<u8>) -> nat
    decreases s.len(),
{
    if s.len() > 0 && s[0] != 10u8 {
        1 + line_len(s.skip(1))
    } else {
        0
    }
}

/// The first line of `s`, line feed included, where `s` holds a line feed.
pub open spec fn first_line(s: Seq<u8>) -> Seq<u8> {
    s.take(line_len(s) as int + 1)
}

/// What follows the first line of `s`.
pub open spec fn after_line(s: Seq<u8>) -> Seq<u8> {
    s.skip(line_len(s) as int + 1)
}

/// The lines on the channel that carry `bytes` under the key `(e, n)`: each
/// carries as many of the bytes that are left as the key has room for.
pub open spec fn frames_of(bytes: Seq<u8>, e: nat, n: nat) -> Seq<Seq<char>>
    decreases bytes.len(),
{
    let k = min_nat(bytes.len(), line_capacity(n));
    if k == 0 {
        Seq::empty()
    } else {
        seq![line_for(bytes.take(k as int), e, n)] + frames_of(bytes.skip(k as int), e, n)
    }
}

/// Whether lines under the modulus `n` can carry `bytes`: the modulus is
/// not 0, and has room for a byte where there is one to carry.
pub open spec fn can_carry(bytes: Seq<u8>, n: nat) -> bool {
    n > 0 && (bytes.len() == 0 || line_capacity(n) >= 1)
}

/// What sending a text through the channel gives: the lines that carry its
/// bytes where the other peer's key `(e, n)` can carry them, else a transport
/// error.
pub open spec fn sending(text: Seq<char>, e: nat, n: nat) -> Result<
    Seq<Seq<char>>,
    HandshakeError,
> {
    if can_carry(encode_utf8(text), n) {
        Ok(frames_of(encode_utf8(text), e, n))
    } else {
        Err(HandshakeError::Transport)
    }
}

/// What the arrival of a line on the channel leads to, for a peer with the
/// private key `(d, n)` and the bytes `pending`: the text line that is now
/// complete, if one is, and the bytes that are left. A key with the modulus 0
/// cannot decrypt; a line that is no decimal number cannot be read; a
/// complete line that is no UTF-8 cannot be handed on.
pub open spec fn arrival(pending: Seq<u8>, line: Seq<char>, d: nat, n: nat) -> Result<
    (Option<Seq<char>>, Seq<u8>),
    HandshakeError,
> {
    if n == 0 {
        Err(HandshakeError::KeyValidity)
    } else {
        match bytes_of_line(line, d, n) {
            None => Err(HandshakeError::Parse),
            Some(fresh) => {
                let all = pending + fresh;
                if line_len(all) == all.len() {
                    Ok((None, all))
                } else if valid_utf8(first_line(all)) {
                    Ok((Some(decode_utf8(first_line(all))), after_line(all)))
                } else {
                    Err(HandshakeError::Transport)
                }
            },
        }
    }
}

/// The views of a sequence of texts.
pub open spec fn texts_of(lines: Seq<String>) -> Seq<Seq<char>> {
    Seq::new(lines.len(), |i: int| lines[i]@)
}

/// One peer's end of the channel once public keys are exchanged: its own key
/// pair, the other peer's public key, and the decrypted bytes that have not
/// yet made a whole line.
pub struct SecureChannel {
    keys: RSAKeys,
    peer: PublicKey,
    pending: Vec<u8>,
}

impl SecureChannel {
    /// This peer's key pair.
    pub closed spec fn keys(&self) -> RSAKeys {
        self.keys
    }

    /// The other peer's public exponent.
    pub closed spec fn peer_e(&self) -> nat {
        self.peer.spec_e()
    }

    /// The other peer's modulus.
    pub closed spec fn peer_n(&self) -> nat {
        self.peer.spec_n()
    }

    /// The decrypted bytes that have not yet made a whole line.
    pub closed spec fn pending(&self) -> Seq<u8> {
        self.pending@
    }

    pub fn new(keys: RSAKeys, peer: PublicKey) -> (r: Self)
        ensures
            r.keys() == keys,
            r.peer_e() == peer.spec_e(),
            r.peer_n() == peer.spec_n(),
            r.pending() == Seq::<u8>::empty(),
    {
        SecureChannel { keys, peer, pending: Vec::new() }
    }

    /// The lines to put on the channel for a text, encrypted for the other
    /// peer. A key that cannot carry the text is a transport error.
    pub fn frame(&self, text: &str) -> (r: Result<Vec<String>, HandshakeError>)
        ensures
            match r {
                Ok(lines) => sending(text@, self.peer_e(), self.peer_n()) == Ok::<
                    Seq<Seq<char>>,
                    HandshakeError,
                >(texts_of(lines@)),
                Err(e) => sending(text@, self.peer_e(), self.peer_n()) == Err::<
                    Seq<Seq<char>>,
                    HandshakeError,
                >(e),
            },
    {
        let zero = biguint_from_u64(0);
        if biguint_eq(self.peer.n_value(), &zero) {
            return Err(HandshakeError::Transport);
        }
        let writer = RSAWriter::new(self.peer.clone());
        let bytes = text.as_bytes();
        let total = bytes.len();
        let ghost e = self.peer_e();
        let ghost n = self.peer_n();
        let mut lines: Vec<String> = Vec::new();
        let mut sent: usize = 0;
        assert(bytes@.skip(0) =~= bytes@);
        while sent < total
            invariant
                total == bytes@.len(),
                bytes@ == text.spec_bytes(),
                e == self.peer_e(),
                n == self.peer_n(),
                sent <= total,
                n > 0,
                writer.spec_e() == e,
                writer.spec_n() == n,
                sent > 0 ==> line_capacity(n) >= 1,
                texts_of(lines@) + frames_of(bytes@.skip(sent as int), e, n) == frames_of(
                    bytes@,
                    e,
                    n,
                ),
            decreases total - sent,
        {
            let rest = slice_subrange(bytes, sent, total);
            assert(rest@ =~= bytes@.skip(sent as int));
            let (line, used) = writer.write(rest);
            if used == 0 {
                return Err(HandshakeError::Transport);
            }
            proof {
                assert(rest@.skip(used as int) =~= bytes@.skip(sent + used));
                assert(texts_of(lines@.push(line)) =~= texts_of(lines@) + seq![line@]);
                assert(texts_of(lines@.push(line)) + frames_of(
                    bytes@.skip(sent + used),
                    e,
                    n,
                ) =~= texts_of(lines@) + frames_of(rest@, e, n));
            }
            lines.push(line);
            sent += used;
        }
        proof {
            assert(bytes@.skip(total as int) =~= Seq::<u8>::empty());
            assert(texts_of(lines@) + Seq::<Seq<char>>::empty() =~= texts_of(lines@));
        }
        Ok(lines)
    }

    /// Takes in a line from the channel: decrypts it, adds its bytes to
    /// those that wait, and hands on the first whole text line if there is
    /// one now.
    pub fn receive_line(self, line: &str) -> (r: Result<(SecureChannel, Option<String>), HandshakeError>)
        ensures
            match r {
                Ok((next, inner)) => {
                    &&& next.keys() == self.keys()
                    &&& next.peer_e() == self.peer_e()
                    &&& next.peer_n() == self.peer_n()
                    &&& arrival(
                        self.pending(),
                        line@,
                        self.keys().spec_d(),
                        self.keys().spec_n(),
                    ) == Ok::<(Option<Seq<char>>, Seq<u8>), HandshakeError>(
                        (
                            match inner {
                                Some(s) => Some(s@),
                                None => None,
                            },
                            next.pending(),
                        ),
                    )
                },
                Err(e) => arrival(
                    self.pending(),
                    line@,
                    self.keys().spec_d(),
                    self.keys().spec_n(),
                ) == Err::<(Option<Seq<char>>, Seq<u8>), HandshakeError>(e),
            },
    {
        let SecureChannel { keys, peer, pending } = self;
        let mut pending = pending;
        let ghost before = pending@;
        let zero = biguint_from_u64(0);
        let own = keys.public_key();
        if biguint_eq(own.n_value(), &zero) {
            return Err(HandshakeError::KeyValidity);
        }
        let fresh = fresh_bytes(&keys, line);
        let fresh = match fresh {
            Some(b) => b,
            None => { return Err(HandshakeError::Parse); },
        };
        let count = fresh.len();
        let mut i: usize = 0;
        while i < count
            invariant
                count == fresh@.len(),
                i <= count,
                pending@ == before + fresh@.take(i as int),
            decreases count - i,
        {
            pending.push(fresh[i]);
            i += 1;
            assert(fresh@.take(i as int) =~= fresh@.take(i - 1).push(fresh@[i - 1]));
        }
        assert(fresh@.take(count as int) =~= fresh@);
        let end = find_line_feed(&pending);
        if end == pending.len() {
            return Ok((SecureChannel { keys, peer, pending }, None));
        }
        let rest = pending.split_off(end + 1);
        match string_from_utf8(pending) {
            Ok(text) => Ok((SecureChannel { keys, peer, pending: rest }, Some(text))),
            Err(_) => Err(HandshakeError::Transport),
        }
    }
}

/// The plaintext bytes of one line from the channel under a key pair whose
/// modulus is not 0; `None` where the line is no decimal number.
fn fresh_bytes(keys: &RSAKeys, line: &str) -> (r: Option<Vec<u8>>)
    requires
        keys.spec_n() > 0,
    ensures
        match r {
            Some(b) => bytes_of_line(line@, keys.spec_d(), keys.spec_n()) == Some(b@),
            None => bytes_of_line(line@, keys.spec_d(), keys.spec_n()) is None,
        },
{
    let mut reader = RSAReader::new(keys.private_key());
    match reader.accept_line(line) {
        Ok(_) => {
            let ghost queued = reader.queue();
            let out = reader.drain(reader.queued());
            proof {
                let fresh = bytes_of_line(line@, keys.spec_d(), keys.spec_n())->0;
                assert(queued =~= fresh);
                assert(out@ =~= queued);
            }
            Some(out)
        },
        Err(_) => None,
    }
}

/// The position of the first line feed among the bytes; their number where
/// there is none.
fn find_line_feed(bytes: &Vec<u8>) -> (r: usize)
    ensures
        r == line_len(bytes@),
        r <= bytes@.len(),
{
    let n = bytes.len();
    let mut i: usize = 0;
    assert(bytes@.skip(0) =~= bytes@);
    while i < n && bytes[i] != 10u8
        invariant
            n == bytes@.len(),
            i <= n,
            line_len(bytes@) == i + line_len(bytes@.skip(i as int)),
        decreases n - i,
    {
        assert(bytes@.skip(i as int).skip(1) =~= bytes@.skip(i + 1));
        i += 1;
    }
    i
}

/// What the arrival of a sequence of lines leads to, one after the other:
/// the text lines that became complete, in order, and the bytes that are
/// left; or the first error.
pub open spec fn arrivals(pending: Seq<u8>, lines: Seq<Seq<char>>, d: nat, n: nat) -> Result<
    (Seq<Seq<char>>, Seq<u8>),
    HandshakeError,
>
    decreases lines.len(),
{
    if lines.len() == 0 {
        Ok((Seq::empty(), pending))
    } else {
        match arrival(pending, lines[0], d, n) {
            Err(e) => Err(e),
            Ok((text, rest)) => match arrivals(rest, lines.skip(1), d, n) {
                Err(e) => Err(e),
                Ok((texts, left)) => Ok(
                    (
                        match text {
                            Some(t) => seq![t] + texts,
                            None => texts,
                        },
                        left,
                    ),
                ),
            },
        }
    }
}

/// Whether a text is one plain line: ASCII characters other than NUL, of
/// which the last, and no other, is a line feed.
pub open spec fn is_plain_line(text: Seq<char>) -> bool {
    &&& text.len() > 0
    &&& text.last() == '\n'
    &&& forall|i: int| 0 <= i < text.len() ==> '\u{1}' <= #[trigger] text[i] <= '\u{7f}'
    &&& forall|i: int| 0 <= i < text.len() - 1 ==> #[trigger] text[i] != '\n'
}

/// Bytes other than line feeds, before a line feed or the end, are counted
/// in full as the beginning of a line.
pub proof fn lemma_line_len_prefix(body: Seq<u8>, rest: Seq<u8>)
    requires
        forall|i: int| 0 <= i < body.len() ==> #[trigger] body[i] != 10u8,
        rest.len() == 0 || rest[0] == 10u8,
    ensures
        line_len(body + rest) == body.len(),
    decreases body.len(),
{
    if body.len() == 0 {
        assert(body + rest =~= rest);
    } else {
        assert((body + rest).skip(1) =~= body.skip(1) + rest);
        assert(body[0] != 10u8);
        assert forall|i: int| 0 <= i < body.skip(1).len() implies #[trigger] body.skip(1)[i]
            != 10u8 by {
            assert(body.skip(1)[i] == body[i + 1]);
        }
        lemma_line_len_prefix(body.skip(1), rest);
    }
}

/// The lines that carry the rest of a plain line arrive as that line, where
/// the part that was carried before waits.
proof fn lemma_frames_arrive(
    bytes: Seq<u8>,
    sent: int,
    e: nat,
    d: nat,
    n: nat,
    p: nat,
    q: nat,
)
    requires
        is_prime_number(p),
        is_prime_number(q),
        p != q,
        derived_from(e, d, n, p, q),
        line_capacity(n) >= 1,
        0 <= sent < bytes.len(),
        valid_utf8(bytes),
        bytes.last() == 10u8,
        forall|i: int| 0 <= i < bytes.len() - 1 ==> #[trigger] bytes[i] != 10u8,
        forall|i: int| 0 <= i < bytes.len() ==> #[trigger] bytes[i] != 0u8,
    ensures
        arrivals(bytes.take(sent), frames_of(bytes.skip(sent), e, n), d, n) == Ok::<
            (Seq<Seq<char>>, Seq<u8>),
            HandshakeError,
        >((seq![decode_utf8(bytes)], Seq::empty())),
    decreases bytes.len() - sent,
{
    let rest = bytes.skip(sent);
    let k = min_nat(rest.len(), line_capacity(n)) as int;
    let chunk = rest.take(k);
    assert(chunk[0] == bytes[sent]);
    lemma_line_round_trip(chunk, e, d, n, p, q);
    assert(n == p * q);
    assert(n > 0) by (nonlinear_arith)
        requires
            n == p * q,
            p >= 2,
            q >= 2,
    ;
    let lines = frames_of(rest, e, n);
    let line = line_for(chunk, e, n);
    assert(lines[0] == line);
    assert(lines.skip(1) =~= frames_of(rest.skip(k), e, n));
    assert(rest.skip(k) =~= bytes.skip(sent + k));
    let all = bytes.take(sent) + chunk;
    assert(all =~= bytes.take(sent + k));
    assert(lines.len() > 0);
    let done = Ok::<(Seq<Seq<char>>, Seq<u8>), HandshakeError>(
        (seq![decode_utf8(bytes)], Seq::empty()),
    );
    if sent + k < bytes.len() {
        assert forall|i: int| 0 <= i < all.len() implies #[trigger] all[i] != 10u8 by {
            assert(all[i] == bytes[i]);
        }
        lemma_line_len_prefix(all, Seq::<u8>::empty());
        assert(all + Seq::<u8>::empty() =~= all);
        assert(arrival(bytes.take(sent), line, d, n) == Ok::<
            (Option<Seq<char>>, Seq<u8>),
            HandshakeError,
        >((None, all)));
        lemma_frames_arrive(bytes, sent + k, e, d, n, p, q);
        assert(arrivals(all, lines.skip(1), d, n) == done);
    } else {
        assert(all =~= bytes);
        let body = bytes.drop_last();
        assert(bytes =~= body + seq![10u8]);
        lemma_line_len_prefix(body, seq![10u8]);
        assert(line_len(all) == all.len() - 1);
        assert(first_line(all) =~= bytes);
        assert(after_line(all) =~= Seq::<u8>::empty());
        assert(arrival(bytes.take(sent), line, d, n) == Ok::<
            (Option<Seq<char>>, Seq<u8>),
            HandshakeError,
        >((Some(decode_utf8(bytes)), Seq::empty())));
        assert(rest.skip(k).len() == 0);
        assert(lines.skip(1) =~= Seq::<Seq<char>>::empty());
        assert(arrivals(Seq::<u8>::empty(), lines.skip(1), d, n) == Ok::<
            (Seq<Seq<char>>, Seq<u8>),
            HandshakeError,
        >((Seq::empty(), Seq::empty())));
        assert(seq![decode_utf8(bytes)] + Seq::<Seq<char>>::empty() =~= seq![decode_utf8(bytes)]);
    }
}

/// Under a triple for two different primes that has room for a byte a line,
/// a plain line of text goes through the channel: the lines that carry it
/// arrive as that text line, and nothing is left to wait.
pub proof fn lemma_text_goes_through(text: Seq<char>, e: nat, d: nat, n: nat, p: nat, q: nat)
    requires
        is_prime_number(p),
        is_prime_number(q),
        p != q,
        derived_from(e, d, n, p, q),
        line_capacity(n) >= 1,
        is_plain_line(text),
    ensures
        arrivals(Seq::empty(), frames_of(encode_utf8(text), e, n), d, n) == Ok::<
            (Seq<Seq<char>>, Seq<u8>),
            HandshakeError,
        >((seq![text], Seq::empty())),
{
    let bytes = encode_utf8(text);
    assert(is_ascii_chars(text));
    is_ascii_chars_encode_utf8(text);
    encode_utf8_valid_utf8(text);
    encode_utf8_decode_utf8(text);
    assert(bytes.last() == 10u8) by {
        assert(bytes[bytes.len() - 1] == text[text.len() - 1] as u8);
    }
    assert forall|i: int| 0 <= i < bytes.len() - 1 implies #[trigger] bytes[i] != 10u8 by {
        assert(bytes[i] == text[i] as u8);
        assert(text[i] != '\n');
    }
    assert forall|i: int| 0 <= i < bytes.len() implies #[trigger] bytes[i] != 0u8 by {
        assert(bytes[i] == text[i] as u8);
        assert('\u{1}' <= text[i]);
    }
    assert(bytes.take(0) =~= Seq::<u8>::empty());
    assert(bytes.skip(0) =~= bytes);
    lemma_frames_arrive(bytes, 0, e, d, n, p, q);
}

} // verus!
