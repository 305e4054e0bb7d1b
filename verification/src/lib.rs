//! Session establishment for a peer-to-peer channel: two peers agree on an
//! AES key by a handshake that is clear text at first and runs under RSA from
//! the exchange of public keys on.
//!
//! - `encryption::rsa` holds RSA keys, their generation and the transform of
//!   messages; `encryption::aes_session` holds the AES key and its block-wise
//!   use. Each comes with the two halves of a byte channel under that cipher.
//! - `encryption::unsecure` and `encryption::secure` make and read the text
//!   lines of the handshake; `channel` carries text lines as RSA lines;
//!   `handshake` holds the two state machines that run the protocol.
//! - `text` is the grammar of the lines; `numbers` and `number_theory` are
//!   the mathematics that the contracts speak of and rest on.
//! - `bignum` and `entropy` state what is taken on trust from the crates
//!   that do big-number arithmetic and draw random values.
//!
//! Nothing here touches a channel: every function goes from values to
//! values, so that the peers' behaviour can be stated and proved.

pub mod bignum;
pub mod channel;
pub mod encryption;
pub mod entropy;
pub mod handshake;
pub mod number_theory;
pub mod numbers;
pub mod text;

pub use encryption::generate_nonce;
pub use encryption::secure::{
    begin_aes_encryption_client, encryption_successful, get_aes_key, handshake_start,
    receive_and_repeat, HANDSHAKE_START_PHRASE,
};
