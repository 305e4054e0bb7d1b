//! The two halves of an RSA-protected byte channel, without the channel. One
//! line of text carries one ciphertext in decimal. The writer turns a buffer
//! into a line to send; the reader turns received lines into plaintext
//! bytes. Whoever owns the channel moves the lines.

use vstd::prelude::*;
use vstd::string::StringExecFns;
use std::collections::VecDeque;
use crate::bignum::{biguint_from_bytes_be, biguint_to_str_radix};
use crate::encryption::rsa::{
    lemma_round_trip_over_primes, rsa_transform, ParseError, PrivateKey, PublicKey, RSAMessage,
};
use crate::encryption::rsa::generator::derived_from;
use crate::numbers::{
    be_bytes, be_value, bit_length, is_plain_digit, is_prime_number, lemma_be_bytes_of_value,
    lemma_be_value_bound, lemma_bit_length_bounds, lemma_digits_plain, lemma_parse_of_digits,
    lemma_pow2_monotonic, parse_radix, radix_digits,
};
use crate::text::{is_space, is_word, lemma_words_of_single, trim, trimmed};

verus! {

/// The smaller of two numbers.
pub open spec fn min_nat(a: nat, b: nat) -> nat {
    if a <= b {
        a
    } else {
        b
    }
}

/// The most plaintext bytes that one line carries under a modulus: one bit
/// less than the modulus has, in whole bytes.
pub open spec fn line_capacity(n: nat) -> nat {
    ((bit_length(n) - 1) / 8) as nat
}

/// The line for a plaintext chunk under the key `(e, n)`: the chunk read as
/// a big-endian number, transformed, written in decimal, and a line feed.
pub open spec fn line_for(chunk: Seq<u8>, e: nat, n: nat) -> Seq<char> {
    radix_digits(rsa_transform(be_value(chunk), e, n), 10).push('\n')
}

/// The plaintext bytes that a line carries under the key `(d, n)`, or `None`
/// where the line, without the white space at its ends, is no decimal number.
pub open spec fn bytes_of_line(line: Seq<char>, d: nat, n: nat) -> Option<Seq<u8>> {
    match parse_radix(trimmed(line), 10) {
        Some(c) => Some(be_bytes(rsa_transform(c, d, n))),
        None => None,
    }
}

/// The plaintext bytes that a sequence of lines carries, in order, or `None`
/// where one of the lines carries none.
pub open spec fn bytes_of_lines(lines: Seq<Seq<char>>, d: nat, n: nat) -> Option<Seq<u8>>
    decreases lines.len(),
{
    if lines.len() == 0 {
        Some(Seq::empty())
    } else {
        match (bytes_of_lines(lines.drop_last(), d, n), bytes_of_line(lines.last(), d, n)) {
            (Some(a), Some(b)) => Some(a + b),
            _ => None,
        }
    }
}

/// The writing half: encrypts what is written under a public key.
pub struct RSAWriter {
    public_key: PublicKey,
}

impl RSAWriter {
    /// The public exponent of the key.
    pub closed spec fn spec_e(&self) -> nat {
        self.public_key.spec_e()
    }

    /// The modulus of the key.
    pub closed spec fn spec_n(&self) -> nat {
        self.public_key.spec_n()
    }

    pub fn new(public_key: PublicKey) -> (r: Self)
        ensures
            r.spec_e() == public_key.spec_e(),
            r.spec_n() == public_key.spec_n(),
    {
        RSAWriter { public_key }
    }

    /// One write to the channel: the line to send, and the number of bytes
    /// of `buf` that it carries. The line carries the first bytes of `buf`,
    /// as many as the key has room for, which may be fewer than `buf` holds.
    pub fn write(&self, buf: &[u8]) -> (r: (String, usize))
        requires
            self.spec_n() > 0,
        ensures
            r.1 == min_nat(buf@.len(), line_capacity(self.spec_n())),
            r.0@ == line_for(buf@.take(r.1 as int), self.spec_e(), self.spec_n()),
    {
        let max_bytes = self.public_key.max_message_size();
        let mut index: usize = 0;
        let mut bytes: Vec<u8> = Vec::new();
        while index < buf.len() && index < max_bytes
            invariant
                index <= buf@.len(),
                index <= max_bytes,
                bytes@ == buf@.take(index as int),
            decreases buf@.len() - index,
        {
            let byte = buf[index];
            index += 1;
            bytes.push(byte);
            assert(buf@.take(index as int) =~= buf@.take(index - 1).push(byte));
        }
        let big_uint = biguint_from_bytes_be(bytes.as_slice());
        let encrypted = RSAMessage::Decrypted(big_uint).encrypt(self.public_key.clone());
        let mut line = biguint_to_str_radix(encrypted.backing(), 10);
        proof {
            reveal_strlit("\n");
        }
        line.append("\n");
        assert("\n"@ =~= seq!['\n']);
        assert(line@ =~= line_for(bytes@, self.spec_e(), self.spec_n()));
        (line, index)
    }
}

/// The reading half: decrypts received lines under a private key and queues
/// the plaintext.
pub struct RSAReader<'a> {
    private_key: PrivateKey<'a>,
    buffer: VecDeque<u8>,
}

impl<'a> RSAReader<'a> {
    /// The plaintext bytes that wait to be handed on.
    pub closed spec fn queue(&self) -> Seq<u8> {
        self.buffer@
    }

    /// The private exponent of the key.
    pub closed spec fn spec_d(&self) -> nat {
        self.private_key.spec_d()
    }

    /// The modulus of the key.
    pub closed spec fn spec_n(&self) -> nat {
        self.private_key.spec_n()
    }

    pub fn new(private_key: PrivateKey<'a>) -> (r: Self)
        ensures
            r.queue() == Seq::<u8>::empty(),
            r.spec_d() == private_key.spec_d(),
            r.spec_n() == private_key.spec_n(),
    {
        RSAReader { private_key, buffer: VecDeque::new() }
    }

    /// The number of bytes that wait to be handed on.
    pub fn queued(&self) -> (r: usize)
        ensures
            r == self.queue().len(),
    {
        self.buffer.len()
    }

    /// Whether the queue is empty, so that a read has to turn to the source.
    pub fn needs_input(&self) -> (r: bool)
        ensures
            r == (self.queue().len() == 0),
    {
        self.buffer.len() == 0
    }

    /// Decrypts one received line and queues its plaintext bytes. A line
    /// that is no decimal number is refused and changes nothing.
    pub fn accept_line(&mut self, line: &str) -> (r: Result<(), ParseError>)
        requires
            old(self).spec_n() > 0,
        ensures
            final(self).spec_d() == old(self).spec_d(),
            final(self).spec_n() == old(self).spec_n(),
            match r {
                Ok(_) => bytes_of_line(
                    line@,
                    old(self).spec_d(),
                    old(self).spec_n(),
                ) matches Some(fresh) && final(self).queue() == old(self).queue() + fresh,
                Err(_) => bytes_of_line(line@, old(self).spec_d(), old(self).spec_n()) is None
                    && final(self).queue() == old(self).queue(),
            },
    {
        let text = trim(line);
        let rsa_message = match RSAMessage::from_encrypted(text.as_str()) {
            Some(m) => m,
            None => { return Err(ParseError); },
        };
        let decrypted = rsa_message.decrypt(self.private_key.clone());
        let bytes = decrypted.bytes_be();
        let n = bytes.len();
        let mut i: usize = 0;
        while i < n
            invariant
                n == bytes@.len(),
                i <= n,
                self.private_key == old(self).private_key,
                self.buffer@ == old(self).buffer@ + bytes@.take(i as int),
            decreases n - i,
        {
            self.buffer.push_back(bytes[i]);
            i += 1;
            assert(bytes@.take(i as int) =~= bytes@.take(i - 1).push(bytes@[i - 1]));
        }
        assert(bytes@.take(n as int) =~= bytes@);
        Ok(())
    }

    /// Hands on the first bytes of the queue, up to `max` of them.
    pub fn drain(&mut self, max: usize) -> (out: Vec<u8>)
        ensures
            final(self).spec_d() == old(self).spec_d(),
            final(self).spec_n() == old(self).spec_n(),
            out@ == old(self).queue().take(min_nat(max as nat, old(self).queue().len()) as int),
            final(self).queue() == old(self).queue().skip(
                min_nat(max as nat, old(self).queue().len()) as int,
            ),
    {
        let mut out: Vec<u8> = Vec::new();
        let mut index: usize = 0;
        while index < max && self.buffer.len() > 0
            invariant
                index <= max,
                index <= old(self).buffer@.len(),
                self.private_key == old(self).private_key,
                out@ == old(self).buffer@.take(index as int),
                self.buffer@ == old(self).buffer@.skip(index as int),
            decreases self.buffer@.len(),
        {
            let front = self.buffer.pop_front();
            let byte = match front {
                Some(b) => b,
                None => 0u8,
            };
            out.push(byte);
            index += 1;
            proof {
                let q = old(self).buffer@;
                assert(q.take(index as int) =~= q.take(index - 1).push(q[index - 1]));
                assert(self.buffer@ =~= q.skip(index as int));
            }
        }
        out
    }

    /// One read from the channel. `lines` are the lines that the source
    /// delivered for this read, in order: all that it had left where the
    /// queue was empty, none else. Their plaintext is queued, then the queue
    /// hands on up to `max` bytes. A line that is no decimal number ends the
    /// read with an error; the lines before it stay queued.
    pub fn read(&mut self, lines: &Vec<String>, max: usize) -> (r: Result<Vec<u8>, ParseError>)
        requires
            old(self).spec_n() > 0,
        ensures
            final(self).spec_d() == old(self).spec_d(),
            final(self).spec_n() == old(self).spec_n(),
            match r {
                Ok(out) => {
                    &&& bytes_of_lines(
                        Seq::new(lines@.len(), |i: int| lines@[i]@),
                        old(self).spec_d(),
                        old(self).spec_n(),
                    ) matches Some(fresh)
                    &&& {
                        let queued = old(self).queue() + fresh;
                        let k = min_nat(max as nat, queued.len()) as int;
                        out@ == queued.take(k) && final(self).queue() == queued.skip(k)
                    }
                },
                Err(_) => bytes_of_lines(
                    Seq::new(lines@.len(), |i: int| lines@[i]@),
                    old(self).spec_d(),
                    old(self).spec_n(),
                ) is None,
            },
    {
        let ghost texts = Seq::new(lines@.len(), |i: int| lines@[i]@);
        let ghost d = self.spec_d();
        let ghost n = self.spec_n();
        let count = lines.len();
        let mut i: usize = 0;
        assert(texts.take(0) =~= Seq::<Seq<char>>::empty());
        while i < count
            invariant
                count == lines@.len(),
                i <= count,
                texts == Seq::new(lines@.len(), |i: int| lines@[i]@),
                self.spec_d() == d,
                self.spec_n() == n,
                d == old(self).spec_d(),
                n == old(self).spec_n(),
                n > 0,
                bytes_of_lines(texts.take(i as int), d, n) matches Some(fresh) && self.queue()
                    == old(self).queue() + fresh,
            decreases count - i,
        {
            let ghost before = self.queue();
            let ghost next = texts.take(i + 1);
            proof {
                assert(next.drop_last() =~= texts.take(i as int));
                assert(next.last() == lines@[i as int]@);
            }
            match self.accept_line(lines[i].as_str()) {
                Ok(_) => {
                    proof {
                        let fresh = bytes_of_lines(texts.take(i as int), d, n)->0;
                        let piece = bytes_of_line(lines@[i as int]@, d, n)->0;
                        assert(old(self).queue() + (fresh + piece) =~= before + piece);
                    }
                },
                Err(e) => {
                    proof {
                        lemma_bad_line(texts, i as int, d, n);
                    }
                    return Err(e);
                },
            }
            i += 1;
        }
        assert(texts.take(count as int) =~= texts);
        Ok(self.drain(max))
    }
}

/// Lines of which one carries no bytes carry none together.
proof fn lemma_bad_line(lines: Seq<Seq<char>>, i: int, d: nat, n: nat)
    requires
        0 <= i < lines.len(),
        bytes_of_line(lines[i], d, n) is None,
    ensures
        bytes_of_lines(lines, d, n) is None,
    decreases lines.len(),
{
    if i < lines.len() - 1 {
        lemma_bad_line(lines.drop_last(), i, d, n);
    }
}

/// Under a triple for two different primes, a line carries its chunk
/// through: what the writer makes of a chunk that the key has room for, the
/// reader turns back into that chunk. The chunk must not be empty and must
/// not begin with a zero byte, which the number that stands for it would lose.
pub proof fn lemma_line_round_trip(chunk: Seq<u8>, e: nat, d: nat, n: nat, p: nat, q: nat)
    requires
        is_prime_number(p),
        is_prime_number(q),
        p != q,
        derived_from(e, d, n, p, q),
        0 < chunk.len() <= line_capacity(n),
        chunk[0] != 0,
    ensures
        bytes_of_line(line_for(chunk, e, n), d, n) == Some(chunk),
{
    let v = be_value(chunk);
    lemma_be_value_bound(chunk);
    assert(n == p * q);
    assert(n > 0) by (nonlinear_arith)
        requires
            n == p * q,
            p >= 2,
            q >= 2,
    ;
    lemma_bit_length_bounds(n);
    lemma_pow2_monotonic(8 * chunk.len(), (bit_length(n) - 1) as nat);
    assert(v < n);
    lemma_round_trip_over_primes(v, e, d, n, p, q);
    let c = rsa_transform(v, e, n);
    assert(rsa_transform(c, d, n) == v);
    lemma_be_bytes_of_value(chunk);
    let digits = radix_digits(c, 10);
    lemma_digits_plain(c, 10);
    lemma_parse_of_digits(c, 10);
    assert(is_word(digits)) by {
        assert forall|i: int| 0 <= i < digits.len() implies !is_space(#[trigger] digits[i]) by {
            assert(is_plain_digit(digits[i]));
        }
    }
    assert(is_space('\n'));
    lemma_words_of_single(digits, seq!['\n']);
    assert(digits.push('\n') =~= digits + seq!['\n']);
}

} // verus!
