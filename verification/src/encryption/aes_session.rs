//! The AES session: a key of 128, 192 or 256 bits and block-wise encryption
//! and decryption under it. Each 16-byte block is transformed on its own.
//!
//! The block transform is the `aes` crate's. This module names what it
//! computes and proves the chunking, padding and joining around it.

use vstd::prelude::*;
use ::aes::{Aes128, Aes192, Aes256};
use ::aes::{BlockCipher, NewBlockCipher};
use ::aes::cipher::block::InvalidKeyLength;
use ::aes::cipher::generic_array::GenericArray;
use num_bigint::ParseBigIntError;
use crate::bignum::{
    biguint_from_bytes_be, biguint_from_str_radix, biguint_to_bytes_be, biguint_to_str_radix,
};
use crate::entropy::random_bool;
use crate::numbers::{
    be_bytes, be_value, lemma_be_bytes_of_value, lemma_parse_of_digits, parse_radix, radix_digits,
};

pub mod aes_stream;



verus! {

/// The `aes` crate's cipher for 16-byte keys.
#[verifier::external_type_specification]
#[verifier::external_body]
pub struct ExAes128(::aes::Aes128);

/// The `aes` crate's cipher for 24-byte keys.
#[verifier::external_type_specification]
#[verifier::external_body]
pub struct ExAes192(::aes::Aes192);

/// The `aes` crate's cipher for 32-byte keys.
#[verifier::external_type_specification]
#[verifier::external_body]
pub struct ExAes256(::aes::Aes256);

/// The `cipher` crate's error for a key of a length that a cipher does not take.
#[verifier::external_type_specification]
#[verifier::external_body]
pub struct ExInvalidKeyLength(::aes::cipher::block::InvalidKeyLength);

/// The 16 key bytes that an `Aes128` was made from.
pub uninterp spec fn aes128_key(c: Aes128) -> Seq<u8>;

/// The 24 key bytes that an `Aes192` was made from.
pub uninterp spec fn aes192_key(c: Aes192) -> Seq<u8>;

/// The 32 key bytes that an `Aes256` was made from.
pub uninterp spec fn aes256_key(c: Aes256) -> Seq<u8>;

/// What AES-128 makes of a 16-byte block under a key.
pub uninterp spec fn aes128_encrypt_block(key: Seq<u8>, block: Seq<u8>) -> Seq<u8>;

/// What AES-128 decryption makes of a 16-byte block under a key.
pub uninterp spec fn aes128_decrypt_block(key: Seq<u8>, block: Seq<u8>) -> Seq<u8>;

/// What AES-192 makes of a 16-byte block under a key.
pub uninterp spec fn aes192_encrypt_block(key: Seq<u8>, block: Seq<u8>) -> Seq<u8>;

/// What AES-192 decryption makes of a 16-byte block under a key.
pub uninterp spec fn aes192_decrypt_block(key: Seq<u8>, block: Seq<u8>) -> Seq<u8>;

/// What AES-256 makes of a 16-byte block under a key.
pub uninterp spec fn aes256_encrypt_block(key: Seq<u8>, block: Seq<u8>) -> Seq<u8>;

/// What AES-256 decryption makes of a 16-byte block under a key.
pub uninterp spec fn aes256_decrypt_block(key: Seq<u8>, block: Seq<u8>) -> Seq<u8>;

/// `Aes128::new_varkey`: a cipher for the key when it has 16 bytes, an error
/// for any other length. The cipher is a block cipher: what it encrypts, it
/// decrypts to what it was.
#[verifier::external_body]
fn aes128_new(key: &[u8]) -> (r: Result<Aes128, InvalidKeyLength>)
    ensures
        match r {
            Ok(c) => {
                &&& key@.len() == 16
                &&& aes128_key(c) == key@
                &&& forall|p: Seq<u8>|
                    p.len() == 16 ==> aes128_decrypt_block(
                        aes128_key(c),
                        #[trigger] aes128_encrypt_block(aes128_key(c), p),
                    ) == p
            },
            Err(_) => key@.len() != 16,
        },
{
    Aes128::new_varkey(key)
}

/// `Aes192::new_varkey`: a cipher for the key when it has 24 bytes, an error
/// for any other length. The cipher is a block cipher: what it encrypts, it
/// decrypts to what it was.
#[verifier::external_body]
fn aes192_new(key: &[u8]) -> (r: Result<Aes192, InvalidKeyLength>)
    ensures
        match r {
            Ok(c) => {
                &&& key@.len() == 24
                &&& aes192_key(c) == key@
                &&& forall|p: Seq<u8>|
                    p.len() == 16 ==> aes192_decrypt_block(
                        aes192_key(c),
                        #[trigger] aes192_encrypt_block(aes192_key(c), p),
                    ) == p
            },
            Err(_) => key@.len() != 24,
        },
{
    Aes192::new_varkey(key)
}

/// `Aes256::new_varkey`: a cipher for the key when it has 32 bytes, an error
/// for any other length. The cipher is a block cipher: what it encrypts, it
/// decrypts to what it was.
#[verifier::external_body]
fn aes256_new(key: &[u8]) -> (r: Result<Aes256, InvalidKeyLength>)
    ensures
        match r {
            Ok(c) => {
                &&& key@.len() == 32
                &&& aes256_key(c) == key@
                &&& forall|p: Seq<u8>|
                    p.len() == 16 ==> aes256_decrypt_block(
                        aes256_key(c),
                        #[trigger] aes256_encrypt_block(aes256_key(c), p),
                    ) == p
            },
            Err(_) => key@.len() != 32,
        },
{
    Aes256::new_varkey(key)
}

/// `Aes128::clone`: a cipher for the same key.
pub assume_specification[ <::aes::Aes128 as Clone>::clone ](c: &::aes::Aes128) -> (r: ::aes::Aes128)
    ensures
        aes128_key(r) == aes128_key(*c),
;

/// `Aes192::clone`: a cipher for the same key.
pub assume_specification[ <::aes::Aes192 as Clone>::clone ](c: &::aes::Aes192) -> (r: ::aes::Aes192)
    ensures
        aes192_key(r) == aes192_key(*c),
;

/// `Aes256::clone`: a cipher for the same key.
pub assume_specification[ <::aes::Aes256 as Clone>::clone ](c: &::aes::Aes256) -> (r: ::aes::Aes256)
    ensures
        aes256_key(r) == aes256_key(*c),
;

/// `Aes128::encrypt_block` on a copy of the block: the encrypted block.
#[verifier::external_body]
fn aes128_encrypt(c: &Aes128, block: &[u8; 16]) -> (r: [u8; 16])
    ensures
        r@ == aes128_encrypt_block(aes128_key(*c), block@),
{
    let mut b = GenericArray::clone_from_slice(block);
    c.encrypt_block(&mut b);
    b.into()
}

/// `Aes128::decrypt_block` on a copy of the block: the decrypted block.
#[verifier::external_body]
fn aes128_decrypt(c: &Aes128, block: &[u8; 16]) -> (r: [u8; 16])
    ensures
        r@ == aes128_decrypt_block(aes128_key(*c), block@),
{
    let mut b = GenericArray::clone_from_slice(block);
    c.decrypt_block(&mut b);
    b.into()
}

/// `Aes192::encrypt_block` on a copy of the block: the encrypted block.
#[verifier::external_body]
fn aes192_encrypt(c: &Aes192, block: &[u8; 16]) -> (r: [u8; 16])
    ensures
        r@ == aes192_encrypt_block(aes192_key(*c), block@),
{
    let mut b = GenericArray::clone_from_slice(block);
    c.encrypt_block(&mut b);
    b.into()
}

/// `Aes192::decrypt_block` on a copy of the block: the decrypted block.
#[verifier::external_body]
fn aes192_decrypt(c: &Aes192, block: &[u8; 16]) -> (r: [u8; 16])
    ensures
        r@ == aes192_decrypt_block(aes192_key(*c), block@),
{
    let mut b = GenericArray::clone_from_slice(block);
    c.decrypt_block(&mut b);
    b.into()
}

/// `Aes256::encrypt_block` on a copy of the block: the encrypted block.
#[verifier::external_body]
fn aes256_encrypt(c: &Aes256, block: &[u8; 16]) -> (r: [u8; 16])
    ensures
        r@ == aes256_encrypt_block(aes256_key(*c), block@),
{
    let mut b = GenericArray::clone_from_slice(block);
    c.encrypt_block(&mut b);
    b.into()
}

/// `Aes256::decrypt_block` on a copy of the block: the decrypted block.
#[verifier::external_body]
fn aes256_decrypt(c: &Aes256, block: &[u8; 16]) -> (r: [u8; 16])
    ensures
        r@ == aes256_decrypt_block(aes256_key(*c), block@),
{
    let mut b = GenericArray::clone_from_slice(block);
    c.decrypt_block(&mut b);
    b.into()
}

/// The encrypted form of a block under a key; the key's length picks the variant.
pub open spec fn cipher_encrypt(key: Seq<u8>, block: Seq<u8>) -> Seq<u8> {
    if key.len() == 16 {
        aes128_encrypt_block(key, block)
    } else if key.len() == 24 {
        aes192_encrypt_block(key, block)
    } else {
        aes256_encrypt_block(key, block)
    }
}

/// The decrypted form of a block under a key; the key's length picks the variant.
pub open spec fn cipher_decrypt(key: Seq<u8>, block: Seq<u8>) -> Seq<u8> {
    if key.len() == 16 {
        aes128_decrypt_block(key, block)
    } else if key.len() == 24 {
        aes192_decrypt_block(key, block)
    } else {
        aes256_decrypt_block(key, block)
    }
}

/// Whether decryption under a key undoes encryption under it, block by block.
pub open spec fn cipher_inverts(key: Seq<u8>) -> bool {
    forall|p: Seq<u8>|
        p.len() == 16 ==> cipher_decrypt(key, #[trigger] cipher_encrypt(key, p)) == p
}

/// Whether an AES key can have this many bytes.
pub open spec fn valid_key_len(len: nat) -> bool {
    len == 16 || len == 24 || len == 32
}

/// The number of 16-byte blocks that a message of `len` bytes fills.
pub open spec fn block_count(len: nat) -> nat {
    (len + 15) / 16
}

/// The message followed by as many zero bytes as fill its last block.
pub open spec fn zero_pad(m: Seq<u8>) -> Seq<u8> {
    m + Seq::new((block_count(m.len()) * 16 - m.len()) as nat, |i: int| 0u8)
}

/// Block `i` of the message: its 16 bytes from position `16 * i`, with zero
/// bytes where the message has ended.
pub open spec fn chunk(m: Seq<u8>, i: int) -> Seq<u8> {
    Seq::new(
        16,
        |j: int|
            if 16 * i + j < m.len() {
                m[16 * i + j]
            } else {
                0u8
            },
    )
}

/// The blocks as byte sequences.
pub open spec fn block_seq(blocks: Seq<[u8; 16]>) -> Seq<Seq<u8>> {
    Seq::new(blocks.len(), |i: int| blocks[i]@)
}

/// The ciphertext of a message under a key: block by block, in order.
pub open spec fn encrypt_spec(key: Seq<u8>, m: Seq<u8>) -> Seq<Seq<u8>> {
    Seq::new(block_count(m.len()), |i: int| cipher_encrypt(key, chunk(m, i)))
}

/// The plaintext of a sequence of blocks under a key: each block decrypted,
/// joined in order.
pub open spec fn decrypt_spec(key: Seq<u8>, blocks: Seq<Seq<u8>>) -> Seq<u8>
    decreases blocks.len(),
{
    if blocks.len() == 0 {
        Seq::empty()
    } else {
        decrypt_spec(key, blocks.drop_last()) + cipher_decrypt(key, blocks.last())
    }
}

/// The first `n` blocks of a padded message, joined, are its first `16 * n` bytes.
pub proof fn lemma_chunks_join(m: Seq<u8>, n: int)
    requires
        0 <= n <= block_count(m.len()),
    ensures
        zero_pad(m).len() == 16 * block_count(m.len()),
        forall|i: int| 0 <= i < n ==> #[trigger] chunk(m, i) == zero_pad(m).subrange(16 * i, 16 * i + 16),
{
    assert forall|i: int| 0 <= i < n implies #[trigger] chunk(m, i) == zero_pad(m).subrange(
        16 * i,
        16 * i + 16,
    ) by {
        assert(chunk(m, i) =~= zero_pad(m).subrange(16 * i, 16 * i + 16));
    }
}

/// Decrypting what was encrypted gives the message back, filled up with
/// zero bytes to whole blocks.
pub proof fn lemma_decrypt_of_encrypt(key: Seq<u8>, m: Seq<u8>)
    requires
        cipher_inverts(key),
    ensures
        decrypt_spec(key, encrypt_spec(key, m)) == zero_pad(m),
{
    let blocks = encrypt_spec(key, m);
    lemma_chunks_join(m, blocks.len() as int);
    lemma_decrypt_prefix(key, m, blocks.len() as int);
    assert(blocks.take(blocks.len() as int) =~= blocks);
    assert(zero_pad(m).subrange(0, 16 * (blocks.len() as int)) =~= zero_pad(m));
}

/// Decrypting the first `n` blocks of an encrypted message gives the first
/// `16 * n` bytes of the message, filled up with zero bytes.
proof fn lemma_decrypt_prefix(key: Seq<u8>, m: Seq<u8>, n: int)
    requires
        cipher_inverts(key),
        0 <= n <= block_count(m.len()),
    ensures
        decrypt_spec(key, encrypt_spec(key, m).take(n)) == zero_pad(m).subrange(0, 16 * n),
    decreases n,
{
    let blocks = encrypt_spec(key, m);
    lemma_chunks_join(m, block_count(m.len()) as int);
    if n == 0 {
        assert(blocks.take(0) =~= Seq::<Seq<u8>>::empty());
        assert(zero_pad(m).subrange(0, 0) =~= Seq::<u8>::empty());
    } else {
        lemma_decrypt_prefix(key, m, n - 1);
        let front = blocks.take(n);
        assert(front.drop_last() =~= blocks.take(n - 1));
        assert(front.last() == cipher_encrypt(key, chunk(m, n - 1)));
        assert(chunk(m, n - 1).len() == 16);
        assert(cipher_decrypt(key, front.last()) == chunk(m, n - 1));
        assert(zero_pad(m).subrange(0, 16 * (n - 1)) + chunk(m, n - 1) =~= zero_pad(m).subrange(
            0,
            16 * n,
        ));
    }
}

/// The text of a key that begins with a byte other than 0 is read back as
/// that key. So the manager that is read from a manager's text decrypts what
/// that manager encrypts.
pub proof fn lemma_key_text_round_trip(key: Seq<u8>)
    requires
        valid_key_len(key.len()),
        key[0] != 0,
    ensures
        AESManager::parse_spec(AESManager::format_spec(key)) == Some(key),
        forall|block: Seq<u8>|
            cipher_decrypt(AESManager::parse_spec(AESManager::format_spec(key))->0, block)
                == #[trigger] cipher_decrypt(key, block),
{
    lemma_parse_of_digits(be_value(key), 16);
    lemma_be_bytes_of_value(key);
}

/// An AES cipher of one of the three key sizes.
#[derive(Debug)]
pub enum Key {
    Aes128(Aes128),
    Aes192(Aes192),
    Aes256(Aes256),
}

impl Clone for Key {
    fn clone(&self) -> (r: Self)
        ensures
            r.key_bytes() == self.key_bytes(),
            r.size() == self.size(),
    {
        match self {
            Key::Aes128(c) => Key::Aes128(c.clone()),
            Key::Aes192(c) => Key::Aes192(c.clone()),
            Key::Aes256(c) => Key::Aes256(c.clone()),
        }
    }
}

/// The size of an AES key.
#[derive(Debug, Copy, Clone, PartialEq, Eq, Structural)]
pub enum KeySize {
    K128,
    K192,
    K256,
}

impl KeySize {
    /// The number of bits of a key of this size.
    pub open spec fn spec_bits(self) -> nat {
        match self {
            KeySize::K128 => 128,
            KeySize::K192 => 192,
            KeySize::K256 => 256,
        }
    }

    /// The number of bits of a key of this size.
    pub fn bits(self) -> (r: u16)
        ensures
            r == self.spec_bits(),
    {
        match self {
            KeySize::K128 => 128,
            KeySize::K192 => 192,
            KeySize::K256 => 256,
        }
    }
}

impl Key {
    /// The key bytes that the cipher was made from.
    pub open spec fn key_bytes(self) -> Seq<u8> {
        match self {
            Key::Aes128(c) => aes128_key(c),
            Key::Aes192(c) => aes192_key(c),
            Key::Aes256(c) => aes256_key(c),
        }
    }

    /// The size that goes with the variant.
    pub open spec fn size(self) -> KeySize {
        match self {
            Key::Aes128(_) => KeySize::K128,
            Key::Aes192(_) => KeySize::K192,
            Key::Aes256(_) => KeySize::K256,
        }
    }

    /// The key has as many bytes as its variant says, and the cipher
    /// decrypts what it encrypts.
    pub open spec fn wf(self) -> bool {
        self.key_bytes().len() * 8 == self.size().spec_bits() && cipher_inverts(self.key_bytes())
    }

    pub fn aes128(&self) -> (r: Option<&Aes128>)
        ensures
            r == (match *self {
                Key::Aes128(c) => Some(&c),
                _ => None,
            }),
    {
        if let Key::Aes128(ret) = self {
            Some(ret)
        } else {
            None
        }
    }

    pub fn aes192(&self) -> (r: Option<&Aes192>)
        ensures
            r == (match *self {
                Key::Aes192(c) => Some(&c),
                _ => None,
            }),
    {
        if let Key::Aes192(ret) = self {
            Some(ret)
        } else {
            None
        }
    }

    pub fn aes256(&self) -> (r: Option<&Aes256>)
        ensures
            r == (match *self {
                Key::Aes256(c) => Some(&c),
                _ => None,
            }),
    {
        if let Key::Aes256(ret) = self {
            Some(ret)
        } else {
            None
        }
    }

    pub fn cipher_size(&self) -> (r: KeySize)
        ensures
            r == self.size(),
    {
        match self {
            Key::Aes128(_) => KeySize::K128,
            Key::Aes192(_) => KeySize::K192,
            Key::Aes256(_) => KeySize::K256,
        }
    }

    /// The cipher for a key of 16, 24 or 32 bytes; any other length is refused.
    pub fn from_bytes(bytes: &[u8]) -> (r: Result<Key, AESManagerParseError>)
        ensures
            r is Ok <==> valid_key_len(bytes@.len()),
            r matches Ok(k) ==> k.key_bytes() == bytes@ && k.wf(),
    {
        let len = bytes.len();
        if len == 16 {
            match aes128_new(bytes) {
                Ok(c) => Ok(Key::Aes128(c)),
                Err(_) => Err(AESManagerParseError),
            }
        } else if len == 24 {
            match aes192_new(bytes) {
                Ok(c) => Ok(Key::Aes192(c)),
                Err(_) => Err(AESManagerParseError),
            }
        } else if len == 32 {
            match aes256_new(bytes) {
                Ok(c) => Ok(Key::Aes256(c)),
                Err(_) => Err(AESManagerParseError),
            }
        } else {
            Err(AESManagerParseError)
        }
    }

    /// Encrypts one block.
    pub fn encrypt_block(&self, block: &[u8; 16]) -> (r: [u8; 16])
        requires
            self.wf(),
        ensures
            r@ == cipher_encrypt(self.key_bytes(), block@),
    {
        match self {
            Key::Aes128(k) => aes128_encrypt(k, block),
            Key::Aes192(k) => aes192_encrypt(k, block),
            Key::Aes256(k) => aes256_encrypt(k, block),
        }
    }

    /// Decrypts one block. A block that is the encrypted form of `p` under
    /// this key decrypts to `p`.
    pub fn decrypt_block(&self, block: &[u8; 16]) -> (r: [u8; 16])
        requires
            self.wf(),
        ensures
            r@ == cipher_decrypt(self.key_bytes(), block@),
            forall|p: Seq<u8>|
                p.len() == 16 && #[trigger] cipher_encrypt(self.key_bytes(), p) == block@ ==> r@
                    == p,
    {
        match self {
            Key::Aes128(k) => aes128_decrypt(k, block),
            Key::Aes192(k) => aes192_decrypt(k, block),
            Key::Aes256(k) => aes256_decrypt(k, block),
        }
    }
}

/// A text does not denote an AES key.
#[derive(Debug)]
pub struct AESManagerParseError;

impl AESManagerParseError {
    /// The error's name, as it is shown to a reader.
    pub fn to_string(&self) -> (r: String)
        ensures
            r@ == "AESManagerParseError"@,
    {
        "AESManagerParseError".to_owned()
    }
}

impl From<ParseBigIntError> for AESManagerParseError {
    fn from(e: ParseBigIntError) -> (r: AESManagerParseError) {
        AESManagerParseError
    }
}

impl vstd::std_specs::convert::FromSpecImpl<ParseBigIntError> for AESManagerParseError {
    open spec fn obeys_from_spec() -> bool {
        true
    }

    open spec fn from_spec(e: ParseBigIntError) -> AESManagerParseError {
        AESManagerParseError
    }
}

/// An AES key together with the bytes it was made from.
#[derive(Debug)]
pub struct AESManager {
    key_value: Vec<u8>,
    key: Key,
}

impl AESManager {
    #[verifier::type_invariant]
    spec fn inv(self) -> bool {
        self.key.wf() && self.key.key_bytes() == self.key_value@
    }

    /// The raw key.
    pub closed spec fn key_bytes(self) -> Seq<u8> {
        self.key_value@
    }

    /// The size of the key.
    pub closed spec fn key_size(self) -> KeySize {
        self.key.size()
    }

    /// The cipher of the session.
    pub fn key(&self) -> (r: &Key)
        ensures
            r.key_bytes() == self.key_bytes(),
            r.size() == self.key_size(),
            r.wf(),
    {
        proof {
            use_type_invariant(self);
        }
        &self.key
    }

    /// The raw key.
    pub fn key_value(&self) -> (r: &[u8])
        ensures
            r@ == self.key_bytes(),
    {
        self.key_value.as_slice()
    }

    /// A manager with a fresh random key of the given size.
    pub fn new(key_size: KeySize) -> (r: Self)
        ensures
            r.key_bytes().len() * 8 == key_size.spec_bits(),
            r.key_size() == key_size,
            cipher_inverts(r.key_bytes()),
    {
        let (key, bytes) = generate_key(key_size);
        Self { key_value: bytes, key }
    }

    /// A manager for the given raw key; a key that has not 16, 24 or 32
    /// bytes is refused.
    pub fn from_key_bytes(bytes: Vec<u8>) -> (r: Result<Self, AESManagerParseError>)
        ensures
            r is Ok <==> valid_key_len(bytes@.len()),
            r matches Ok(m) ==> m.key_bytes() == bytes@ && m.key_size().spec_bits()
                == bytes@.len() * 8 && cipher_inverts(bytes@),
    {
        match Key::from_bytes(bytes.as_slice()) {
            Ok(key) => Ok(Self { key_value: bytes, key }),
            Err(e) => Err(e),
        }
    }

    /// The text of a key: the key bytes read as one big-endian number,
    /// written in lower-case hexadecimal without leading zeros.
    pub open spec fn format_spec(key: Seq<u8>) -> Seq<char> {
        radix_digits(be_value(key), 16)
    }

    /// The key that a text denotes: the text read as a hexadecimal number,
    /// and that number's shortest big-endian byte string, if it has the
    /// length of a key.
    pub open spec fn parse_spec(s: Seq<char>) -> Option<Seq<u8>> {
        match parse_radix(s, 16) {
            None => None,
            Some(n) => if valid_key_len(be_bytes(n).len()) {
                Some(be_bytes(n))
            } else {
                None
            },
        }
    }

    /// The key as text.
    pub fn parsable_string(&self) -> (r: String)
        ensures
            r@ == Self::format_spec(self.key_bytes()),
    {
        let big_uint = biguint_from_bytes_be(self.key_value.as_slice());
        biguint_to_str_radix(&big_uint, 16)
    }

    /// The manager for the key that a text denotes, or an error where it
    /// denotes none.
    pub fn from_str(s: &str) -> (r: Result<Self, AESManagerParseError>)
        ensures
            match r {
                Ok(m) => Self::parse_spec(s@) == Some(m.key_bytes()) && cipher_inverts(
                    m.key_bytes(),
                ),
                Err(_) => Self::parse_spec(s@) is None,
            },
    {
        match biguint_from_str_radix(s, 16) {
            Ok(big_uint) => {
                let bytes = biguint_to_bytes_be(&big_uint);
                Self::from_key_bytes(bytes)
            },
            Err(e) => Err(AESManagerParseError::from(e)),
        }
    }

    /// Encrypts a message: cuts it into 16-byte blocks, the last one filled
    /// up with zero bytes, and encrypts each.
    pub fn encrypt(&self, message: &[u8]) -> (blocks: Vec<[u8; 16]>)
        ensures
            block_seq(blocks@) == encrypt_spec(self.key_bytes(), message@),
    {
        proof {
            use_type_invariant(self);
        }
        let len = message.len();
        let total: usize = len / 16 + if len % 16 > 0 {
            1usize
        } else {
            0usize
        };
        let mut vector: Vec<[u8; 16]> = Vec::new();
        let mut i: usize = 0;
        while i < total
            invariant
                len == message@.len(),
                total == block_count(len as nat),
                i <= total,
                self.key.wf(),
                self.key.key_bytes() == self.key_value@,
                vector@.len() == i,
                forall|k: int|
                    0 <= k < i ==> (#[trigger] vector@[k])@ == cipher_encrypt(
                        self.key_value@,
                        chunk(message@, k),
                    ),
            decreases total - i,
        {
            let base: usize = i * 16;
            let mut array = [0u8;16];
            let mut j: usize = 0;
            while j < 16
                invariant
                    len == message@.len(),
                    base == i * 16,
                    base <= len,
                    j <= 16,
                    forall|k: int|
                        0 <= k < 16 ==> #[trigger] array@[k] == (if k < j && base + k < len {
                            message@[base + k]
                        } else {
                            0u8
                        }),
                decreases 16 - j,
            {
                if j < len - base {
                    array[j] = message[base + j];
                }
                j += 1;
            }
            assert(array@ =~= chunk(message@, i as int));
            let encrypted = self.key.encrypt_block(&array);
            vector.push(encrypted);
            i += 1;
        }
        assert(block_seq(vector@) =~= encrypt_spec(self.key_bytes(), message@));
        vector
    }

    /// Decrypts a sequence of blocks and joins the results. For every
    /// message, the blocks that `encrypt` makes of it under this key come
    /// back as that message filled up with zero bytes to whole blocks.
    pub fn decrypt(&self, blocks: &[[u8; 16]]) -> (out: Vec<u8>)
        ensures
            out@ == decrypt_spec(self.key_bytes(), block_seq(blocks@)),
            forall|m: Seq<u8>|
                block_seq(blocks@) == #[trigger] encrypt_spec(self.key_bytes(), m) ==> out@
                    == zero_pad(m),
    {
        proof {
            use_type_invariant(self);
        }
        let n = blocks.len();
        let mut output: Vec<u8> = Vec::new();
        let mut i: usize = 0;
        assert(block_seq(blocks@).take(0) =~= Seq::<Seq<u8>>::empty());
        while i < n
            invariant
                n == blocks@.len(),
                i <= n,
                self.key.wf(),
                self.key.key_bytes() == self.key_value@,
                output@ == decrypt_spec(self.key_value@, block_seq(blocks@).take(i as int)),
            decreases n - i,
        {
            let block = self.key.decrypt_block(&blocks[i]);
            let ghost before = output@;
            let mut j: usize = 0;
            while j < 16
                invariant
                    j <= 16,
                    output@ == before + block@.subrange(0, j as int),
                decreases 16 - j,
            {
                output.push(block[j]);
                j += 1;
                assert(block@.subrange(0, j as int) =~= block@.subrange(0, j - 1).push(
                    block@[j - 1],
                ));
            }
            proof {
                assert(block@.subrange(0, 16) =~= block@);
                let next = block_seq(blocks@).take(i + 1);
                assert(next.drop_last() =~= block_seq(blocks@).take(i as int));
                assert(next.last() == blocks@[i as int]@);
            }
            i += 1;
        }
        proof {
            assert(block_seq(blocks@).take(n as int) =~= block_seq(blocks@));
            assert forall|m: Seq<u8>|
                block_seq(blocks@) == #[trigger] encrypt_spec(
                    self.key_bytes(),
                    m,
                ) implies output@ == zero_pad(m) by {
                lemma_decrypt_of_encrypt(self.key_bytes(), m);
            }
        }
        output
    }
}

impl std::str::FromStr for AESManager {
    type Err = AESManagerParseError;

    fn from_str(s: &str) -> (r: Result<Self, AESManagerParseError>)
        ensures
            match r {
                Ok(m) => AESManager::parse_spec(s@) == Some(m.key_bytes()),
                Err(_) => AESManager::parse_spec(s@) is None,
            },
    {
        AESManager::from_str(s)
    }
}

/// A fresh random key of the given size, with the bytes it was made from.
/// Each bit of each byte is one coin toss.
pub fn generate_key(key_size: KeySize) -> (r: (Key, Vec<u8>))
    ensures
        r.0.wf(),
        r.0.size() == key_size,
        r.0.key_bytes() == r.1@,
{
    let bits = key_size.bits();
    let count: usize = (bits / 8) as usize;
    let mut bytes: Vec<u8> = Vec::with_capacity(count);
    let mut i: usize = 0;
    while i < count
        invariant
            i <= count,
            bytes@.len() == i,
        decreases count - i,
    {
        let mut byte: u8 = 0u8;
        let mut j: usize = 0;
        while j < 8
            invariant
                j <= 8,
            decreases 8 - j,
        {
            byte = byte << 1;
            let bit: bool = random_bool();
            byte |= if bit {
                1u8
            } else {
                0u8
            };
            j += 1;
        }
        bytes.push(byte);
        i += 1;
    }
    match Key::from_bytes(bytes.as_slice()) {
        Ok(key) => (key, bytes),
        Err(_) => vstd::pervasive::unreached(),
    }
}

} // verus!
