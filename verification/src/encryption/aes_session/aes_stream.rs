//! The two halves of an AES-protected byte channel, without the channel: the
//! writer turns a buffer into the bytes to send, the reader turns a received
//! block into the bytes to hand on. Whoever owns the channel moves the bytes.

use vstd::prelude::*;
use std::collections::VecDeque;
use crate::encryption::aes_session::{
    block_seq, cipher_decrypt, encrypt_spec, AESManager,
};

verus! {

/// The blocks joined into one byte sequence, in order.
pub open spec fn join_blocks(blocks: Seq<Seq<u8>>) -> Seq<u8>
    decreases blocks.len(),
{
    if blocks.len() == 0 {
        Seq::empty()
    } else {
        join_blocks(blocks.drop_last()) + blocks.last()
    }
}

/// What one read hands on from a queue: its bytes from the front, up to
/// `max` of them, stopping before the first zero byte.
pub open spec fn handed_on(queue: Seq<u8>, max: nat) -> Seq<u8>
    decreases queue.len(),
{
    if max == 0 || queue.len() == 0 || queue[0] == 0 {
        Seq::empty()
    } else {
        seq![queue[0]] + handed_on(queue.skip(1), (max - 1) as nat)
    }
}

/// What one read leaves in a queue: what follows the bytes handed on, less
/// the zero byte that stopped the read, if one did.
pub open spec fn left_over(queue: Seq<u8>, max: nat) -> Seq<u8>
    decreases queue.len(),
{
    if max == 0 || queue.len() == 0 {
        queue
    } else if queue[0] == 0 {
        queue.skip(1)
    } else {
        left_over(queue.skip(1), (max - 1) as nat)
    }
}

/// The reading half: decrypts received blocks and queues the plaintext.
pub struct AESReader<'a> {
    key_manager: &'a AESManager,
    internal_buffer: VecDeque<u8>,
}

impl<'a> AESReader<'a> {
    /// The plaintext bytes that wait to be handed on.
    pub closed spec fn queue(&self) -> Seq<u8> {
        self.internal_buffer@
    }

    /// The key of the session.
    pub closed spec fn key_bytes(&self) -> Seq<u8> {
        self.key_manager.key_bytes()
    }

    pub fn new(key_manager: &'a AESManager) -> (r: Self)
        ensures
            r.queue() == Seq::<u8>::empty(),
            r.key_bytes() == key_manager.key_bytes(),
    {
        AESReader { key_manager, internal_buffer: VecDeque::new() }
    }

    /// Decrypts one received block and queues its 16 plaintext bytes.
    pub fn accept_block(&mut self, block: &[u8; 16])
        ensures
            final(self).key_bytes() == old(self).key_bytes(),
            final(self).queue() == old(self).queue() + cipher_decrypt(
                old(self).key_bytes(),
                block@,
            ),
    {
        let mut one: Vec<[u8; 16]> = Vec::new();
        one.push(*block);
        let bytes = self.key_manager.decrypt(one.as_slice());
        proof {
            let bs = block_seq(one@);
            assert(bs.drop_last() =~= Seq::<Seq<u8>>::empty());
            assert(bs.last() == block@);
            reveal_with_fuel(crate::encryption::aes_session::decrypt_spec, 2);
            assert(bytes@ =~= cipher_decrypt(self.key_manager.key_bytes(), block@));
        }
        let n = bytes.len();
        let mut i: usize = 0;
        while i < n
            invariant
                n == bytes@.len(),
                i <= n,
                self.key_manager == old(self).key_manager,
                self.internal_buffer@ == old(self).internal_buffer@ + bytes@.subrange(0, i as int),
            decreases n - i,
        {
            self.internal_buffer.push_back(bytes[i]);
            i += 1;
            assert(bytes@.subrange(0, i as int) =~= bytes@.subrange(0, i - 1).push(bytes@[i - 1]));
        }
        assert(bytes@.subrange(0, n as int) =~= bytes@);
    }

    /// Hands on queued bytes: up to `max`, and none from a zero byte on. The
    /// zero byte that stops a read leaves the queue with what was handed on.
    pub fn drain(&mut self, max: usize) -> (out: Vec<u8>)
        ensures
            final(self).key_bytes() == old(self).key_bytes(),
            out@ == handed_on(old(self).queue(), max as nat),
            final(self).queue() == left_over(old(self).queue(), max as nat),
    {
        let mut out: Vec<u8> = Vec::new();
        let mut index: usize = 0;
        while index < max && self.internal_buffer.len() > 0
            invariant
                index <= max,
                out@.len() == index,
                self.key_manager == old(self).key_manager,
                handed_on(old(self).queue(), max as nat) == out@ + handed_on(
                    self.internal_buffer@,
                    (max - index) as nat,
                ),
                left_over(old(self).queue(), max as nat) == left_over(
                    self.internal_buffer@,
                    (max - index) as nat,
                ),
            decreases self.internal_buffer@.len(),
        {
            let ghost q = self.internal_buffer@;
            let front = self.internal_buffer.pop_front();
            let byte = match front {
                Some(b) => b,
                None => 0u8,
            };
            assert(self.internal_buffer@ =~= q.skip(1));
            if byte == 0 {
                assert(handed_on(q, (max - index) as nat) =~= Seq::<u8>::empty());
                assert(out@ + Seq::<u8>::empty() =~= out@);
                return out;
            }
            proof {
                assert(out@.push(byte) + handed_on(q.skip(1), (max - index - 1) as nat) =~= out@
                    + (seq![byte] + handed_on(q.skip(1), (max - index - 1) as nat)));
            }
            out.push(byte);
            index += 1;
        }
        proof {
            assert(handed_on(self.internal_buffer@, (max - index) as nat) =~= Seq::<u8>::empty());
            assert(out@ + Seq::<u8>::empty() =~= out@);
        }
        out
    }

    /// One read from the channel. `received` is the block that the source
    /// delivered, or `None` where it delivered nothing; `max` is the room in
    /// the caller's buffer. With nothing delivered, nothing is handed on and
    /// the queue stays as it is. Otherwise the block is decrypted and queued,
    /// and the queue is drained.
    pub fn read(&mut self, received: Option<[u8; 16]>, max: usize) -> (out: Vec<u8>)
        ensures
            final(self).key_bytes() == old(self).key_bytes(),
            match received {
                None => out@ == Seq::<u8>::empty() && final(self).queue() == old(self).queue(),
                Some(block) => {
                    let queued = old(self).queue() + cipher_decrypt(
                        old(self).key_bytes(),
                        block@,
                    );
                    out@ == handed_on(queued, max as nat) && final(self).queue() == left_over(
                        queued,
                        max as nat,
                    )
                },
            },
    {
        match received {
            None => Vec::new(),
            Some(block) => {
                self.accept_block(&block);
                self.drain(max)
            },
        }
    }
}

/// The writing half: encrypts what is written.
pub struct AESWriter<'a> {
    key_manager: &'a AESManager,
}

impl<'a> AESWriter<'a> {
    /// The key of the session.
    pub closed spec fn key_bytes(&self) -> Seq<u8> {
        self.key_manager.key_bytes()
    }

    pub fn new(key_manager: &'a AESManager) -> (r: Self)
        ensures
            r.key_bytes() == key_manager.key_bytes(),
    {
        AESWriter { key_manager }
    }

    /// One write to the channel: the bytes to send for `buf`, which are its
    /// encrypted blocks in order, and the number of bytes of `buf` that they
    /// carry, which is all of them.
    pub fn write(&self, buf: &[u8]) -> (r: (Vec<u8>, usize))
        ensures
            r.0@ == join_blocks(encrypt_spec(self.key_bytes(), buf@)),
            r.1 == buf@.len(),
    {
        let encrypted = self.key_manager.encrypt(buf);
        let n = encrypted.len();
        let mut out: Vec<u8> = Vec::new();
        let mut i: usize = 0;
        assert(block_seq(encrypted@).take(0) =~= Seq::<Seq<u8>>::empty());
        while i < n
            invariant
                n == encrypted@.len(),
                i <= n,
                out@ == join_blocks(block_seq(encrypted@).take(i as int)),
            decreases n - i,
        {
            let ghost before = out@;
            let block = &encrypted[i];
            let mut j: usize = 0;
            while j < 16
                invariant
                    j <= 16,
                    out@ == before + block@.subrange(0, j as int),
                decreases 16 - j,
            {
                out.push(block[j]);
                j += 1;
                assert(block@.subrange(0, j as int) =~= block@.subrange(0, j - 1).push(
                    block@[j - 1],
                ));
            }
            proof {
                assert(block@.subrange(0, 16) =~= block@);
                let next = block_seq(encrypted@).take(i + 1);
                assert(next.drop_last() =~= block_seq(encrypted@).take(i as int));
                assert(next.last() == block@);
            }
            i += 1;
        }
        assert(block_seq(encrypted@).take(n as int) =~= block_seq(encrypted@));
        (out, buf.len())
    }
}

} // verus!
