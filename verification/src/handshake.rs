//! The handshake as two state machines, one for each peer. A machine is fed
//! the lines that arrive and answers with the lines to send; whoever owns the
//! channel moves them. The first two exchanges are clear text. From the
//! exchange of public keys on, the text lines of the protocol travel through
//! a `SecureChannel`.

use vstd::prelude::*;
use crate::channel::{arrival, sending, texts_of, SecureChannel};
use crate::encryption::{generate_nonce, nonce_text, HandshakeError};
use crate::encryption::aes_session::{AESManager, KeySize};
use crate::encryption::rsa::{PublicKey, RSAKeys, RSAKeysGenerator};
use crate::encryption::rsa::generator::generated;
use crate::encryption::secure;
use crate::encryption::unsecure;

verus! {

/// The size in bits of the RSA keys of a handshake.
pub const RSA_KEY_BITS: u16 = 512;

/// The number of bytes in the nonce of the clear-text exchange.
pub const FIRST_NONCE_BYTES: usize = 4;

/// The number of bytes in the nonces of the exchange under RSA.
pub const SECOND_NONCE_BYTES: usize = 16;

/// Whether a text is the text of a nonce of `size` bytes.
pub open spec fn is_nonce(text: Seq<char>, size: nat) -> bool {
    exists|bytes: Seq<u8>| bytes.len() == size && text == #[trigger] nonce_text(bytes)
}

/// Whether `next` is `channel` with the bytes `pending` left to wait.
pub open spec fn moved_on(channel: SecureChannel, next: SecureChannel, pending: Seq<u8>) -> bool {
    &&& next.keys() == channel.keys()
    &&& next.peer_e() == channel.peer_e()
    &&& next.peer_n() == channel.peer_n()
    &&& next.pending() == pending
}

/// What a step of a machine hands back, as texts.
pub open spec fn step_output(r: Result<Vec<String>, HandshakeError>) -> Result<
    Seq<Seq<char>>,
    HandshakeError,
> {
    match r {
        Ok(lines) => Ok(texts_of(lines@)),
        Err(e) => Err(e),
    }
}

/// The client's side of the handshake, by what it waits for.
pub enum ClientHandshake {
    /// Waits for the server to repeat the first nonce.
    AwaitAck { first_nonce: String },
    /// Has announced its public key and waits for the server's.
    AwaitServerKey { keys: RSAKeys },
    /// Has opened the exchange under RSA and waits for the server's challenge.
    AwaitChallenge { channel: SecureChannel, second_nonce: String },
    /// Has answered the challenge and waits for the acknowledgment.
    AwaitSuccess { channel: SecureChannel },
    /// Has delivered the AES key.
    Done { manager: AESManager },
    /// Has failed.
    Failed,
}

/// How the client goes from `old` to `next` when `line` arrives, and what it
/// sends. Every error ends in `Failed`.
///
/// - Waiting for the first nonce: any other line is a protocol error. The
///   right one makes the client generate its keys and announce the public one.
/// - Waiting for the server's key: the line must announce a key. The client
///   then opens the exchange under RSA with a fresh nonce of 16 bytes.
/// - Waiting for the challenge: while no whole text line has arrived, the
///   client waits on. The text line must begin with the client's nonce; the
///   client sends back the word after it.
/// - Waiting for the acknowledgment: the text line must be the success
///   phrase. The client then makes a 256-bit AES key and delivers it.
/// - After the end, any line is a protocol error.
pub open spec fn client_step(
    old: ClientHandshake,
    line: Seq<char>,
    next: ClientHandshake,
    out: Result<Seq<Seq<char>>, HandshakeError>,
) -> bool {
    &&& out is Err ==> next is Failed
    &&& match old {
        ClientHandshake::AwaitAck { first_nonce } => {
            if crate::text::trimmed(line) != first_nonce@ {
                out == Err::<Seq<Seq<char>>, HandshakeError>(HandshakeError::Protocol)
            } else {
                match out {
                    Err(e) => e == HandshakeError::KeyValidity,
                    Ok(lines) => {
                        &&& next matches ClientHandshake::AwaitServerKey { keys }
                        &&& keys.spec_valid()
                        &&& generated(
                            keys.spec_e(),
                            keys.spec_d(),
                            keys.spec_n(),
                            (RSA_KEY_BITS / 2) as nat,
                        )
                        &&& lines == seq![
                            unsecure::public_key_line(
                                PublicKey::format_spec(keys.spec_e(), keys.spec_n()),
                            ),
                        ]
                    },
                }
            }
        },
        ClientHandshake::AwaitServerKey { keys } => {
            match unsecure::announced_key(line) {
                Err(e) => out == Err::<Seq<Seq<char>>, HandshakeError>(e),
                Ok((n, e)) => exists|nonce: Seq<char>|
                    {
                        &&& #[trigger] is_nonce(nonce, SECOND_NONCE_BYTES as nat)
                        &&& out == sending(secure::start_line(nonce), e, n)
                        &&& out is Ok ==> {
                            &&& next matches ClientHandshake::AwaitChallenge {
                                channel,
                                second_nonce,
                            }
                            &&& second_nonce@ == nonce
                            &&& channel.keys() == keys
                            &&& channel.peer_e() == e
                            &&& channel.peer_n() == n
                            &&& channel.pending() == Seq::<u8>::empty()
                        }
                    },
            }
        },
        ClientHandshake::AwaitChallenge { channel, second_nonce } => {
            match arrival(
                channel.pending(),
                line,
                channel.keys().spec_d(),
                channel.keys().spec_n(),
            ) {
                Err(e) => out == Err::<Seq<Seq<char>>, HandshakeError>(e),
                Ok((None, rest)) => {
                    &&& out == Ok::<Seq<Seq<char>>, HandshakeError>(Seq::empty())
                    &&& next matches ClientHandshake::AwaitChallenge {
                        channel: c,
                        second_nonce: s,
                    }
                    &&& s@ == second_nonce@
                    &&& moved_on(channel, c, rest)
                },
                Ok((Some(text), rest)) => match secure::response_for(second_nonce@, text) {
                    Err(e) => out == Err::<Seq<Seq<char>>, HandshakeError>(e),
                    Ok(reply) => {
                        &&& out == sending(reply, channel.peer_e(), channel.peer_n())
                        &&& out is Ok ==> {
                            &&& next matches ClientHandshake::AwaitSuccess { channel: c }
                            &&& moved_on(channel, c, rest)
                        }
                    },
                },
            }
        },
        ClientHandshake::AwaitSuccess { channel } => {
            match arrival(
                channel.pending(),
                line,
                channel.keys().spec_d(),
                channel.keys().spec_n(),
            ) {
                Err(e) => out == Err::<Seq<Seq<char>>, HandshakeError>(e),
                Ok((None, rest)) => {
                    &&& out == Ok::<Seq<Seq<char>>, HandshakeError>(Seq::empty())
                    &&& next matches ClientHandshake::AwaitSuccess { channel: c }
                    &&& moved_on(channel, c, rest)
                },
                Ok((Some(text), rest)) => {
                    if crate::text::trimmed(text) != secure::SUCCESS_PHRASE@ {
                        out == Err::<Seq<Seq<char>>, HandshakeError>(HandshakeError::Protocol)
                    } else {
                        exists|key: Seq<u8>|
                            {
                                &&& key.len() == 32
                                &&& out == #[trigger] sending(
                                    secure::aes_key_line(AESManager::format_spec(key)),
                                    channel.peer_e(),
                                    channel.peer_n(),
                                )
                                &&& out is Ok ==> {
                                    &&& next matches ClientHandshake::Done { manager }
                                    &&& manager.key_bytes() == key
                                }
                            }
                    }
                },
            }
        },
        ClientHandshake::Done { manager } => out == Err::<Seq<Seq<char>>, HandshakeError>(
            HandshakeError::Protocol,
        ),
        ClientHandshake::Failed => out == Err::<Seq<Seq<char>>, HandshakeError>(
            HandshakeError::Protocol,
        ),
    }
}

impl ClientHandshake {
    /// A client at the start of a handshake with the given first nonce, and
    /// the line that it sends first.
    pub fn begin(first_nonce: String) -> (r: (Self, String))
        ensures
            r.0 matches ClientHandshake::AwaitAck { first_nonce: n } && n@ == first_nonce@,
            r.1@ == unsecure::start_line(first_nonce@),
    {
        let line = unsecure::handshake_start(first_nonce.as_str());
        (ClientHandshake::AwaitAck { first_nonce }, line)
    }

    /// A client at the start of a handshake with a fresh first nonce of 4
    /// bytes, and the line that it sends first.
    pub fn start() -> (r: (Self, String))
        ensures
            r.0 matches ClientHandshake::AwaitAck { first_nonce: n } && is_nonce(
                n@,
                FIRST_NONCE_BYTES as nat,
            ) && r.1@ == unsecure::start_line(n@),
    {
        Self::begin(generate_nonce(FIRST_NONCE_BYTES))
    }

    /// One step of the client: takes in a line from the channel and hands
    /// back the next state with the lines to send.
    pub fn receive(self, line: &str) -> (r: (Self, Result<Vec<String>, HandshakeError>))
        ensures
            client_step(self, line@, r.0, step_output(r.1)),
    {
        match self {
            ClientHandshake::AwaitAck { first_nonce } => {
                if !unsecure::receive_ack(first_nonce.as_str(), line) {
                    return (ClientHandshake::Failed, Err(HandshakeError::Protocol));
                }
                match RSAKeysGenerator::new(RSA_KEY_BITS).generate_keys() {
                    None => (ClientHandshake::Failed, Err(HandshakeError::KeyValidity)),
                    Some(keys) => {
                        let own = keys.public_key();
                        let announce = unsecure::send_public_key(&own);
                        let mut out: Vec<String> = Vec::new();
                        out.push(announce);
                        assert(texts_of(out@) =~= seq![announce@]);
                        (ClientHandshake::AwaitServerKey { keys }, Ok(out))
                    },
                }
            },
            ClientHandshake::AwaitServerKey { keys } => {
                let peer = match unsecure::receive_public_key(line) {
                    Ok(k) => k,
                    Err(e) => { return (ClientHandshake::Failed, Err(e)); },
                };
                let channel = SecureChannel::new(keys, peer);
                let second_nonce = generate_nonce(SECOND_NONCE_BYTES);
                let opening = secure::handshake_start(second_nonce.as_str());
                let sent = channel.frame(opening.as_str());
                assert(is_nonce(second_nonce@, SECOND_NONCE_BYTES as nat));
                match sent {
                    Ok(out) => (ClientHandshake::AwaitChallenge { channel, second_nonce }, Ok(out)),
                    Err(e) => (ClientHandshake::Failed, Err(e)),
                }
            },
            ClientHandshake::AwaitChallenge { channel, second_nonce } => {
                let (next, inner) = match channel.receive_line(line) {
                    Ok(pair) => pair,
                    Err(e) => { return (ClientHandshake::Failed, Err(e)); },
                };
                let text = match inner {
                    Some(t) => t,
                    None => {
                        let out: Vec<String> = Vec::new();
                        assert(texts_of(out@) =~= Seq::<Seq<char>>::empty());
                        return (
                            ClientHandshake::AwaitChallenge { channel: next, second_nonce },
                            Ok(out),
                        );
                    },
                };
                let reply = match secure::receive_and_repeat(second_nonce.as_str(), text.as_str()) {
                    Ok(r) => r,
                    Err(e) => { return (ClientHandshake::Failed, Err(e)); },
                };
                match next.frame(reply.as_str()) {
                    Ok(out) => (ClientHandshake::AwaitSuccess { channel: next }, Ok(out)),
                    Err(e) => (ClientHandshake::Failed, Err(e)),
                }
            },
            ClientHandshake::AwaitSuccess { channel } => {
                let (next, inner) = match channel.receive_line(line) {
                    Ok(pair) => pair,
                    Err(e) => { return (ClientHandshake::Failed, Err(e)); },
                };
                let text = match inner {
                    Some(t) => t,
                    None => {
                        let out: Vec<String> = Vec::new();
                        assert(texts_of(out@) =~= Seq::<Seq<char>>::empty());
                        return (ClientHandshake::AwaitSuccess { channel: next }, Ok(out));
                    },
                };
                if !secure::encryption_successful(text.as_str()) {
                    return (ClientHandshake::Failed, Err(HandshakeError::Protocol));
                }
                let manager = AESManager::new(KeySize::K256);
                let delivery = secure::begin_aes_encryption_client(&manager);
                let sent = next.frame(delivery.as_str());
                assert(step_output(sent) == sending(
                    secure::aes_key_line(AESManager::format_spec(manager.key_bytes())),
                    next.peer_e(),
                    next.peer_n(),
                ));
                match sent {
                    Ok(out) => (ClientHandshake::Done { manager }, Ok(out)),
                    Err(e) => (ClientHandshake::Failed, Err(e)),
                }
            },
            ClientHandshake::Done { manager } => (
                ClientHandshake::Failed,
                Err(HandshakeError::Protocol),
            ),
            ClientHandshake::Failed => (ClientHandshake::Failed, Err(HandshakeError::Protocol)),
        }
    }

    /// The AES manager of a handshake that has ended well.
    pub fn manager(self) -> (r: Option<AESManager>)
        ensures
            match self {
                ClientHandshake::Done { manager } => r == Some(manager),
                _ => r is None,
            },
    {
        match self {
            ClientHandshake::Done { manager } => Some(manager),
            _ => None,
        }
    }
}

/// The server's side of the handshake, by what it waits for.
pub enum ServerHandshake {
    /// Waits for the client's first line.
    AwaitBegin,
    /// Waits for the client's public key.
    AwaitClientKey,
    /// Has announced its public key and waits for the client to open the
    /// exchange under RSA.
    AwaitSecop { channel: SecureChannel, nonce: String },
    /// Waits for the client to repeat the server's nonce.
    AwaitRepeat { channel: SecureChannel, nonce: String },
    /// Has acknowledged the exchange and waits for the AES key.
    AwaitAesKey { channel: SecureChannel },
    /// Has received the AES key.
    Done { manager: AESManager },
    /// Has failed.
    Failed,
}

/// How the server goes from `old` to `next` when `line` arrives, and what it
/// sends. Every error ends in `Failed`.
///
/// - Waiting for the first line: the server repeats the nonce of a line that
///   opens the handshake and answers nothing to another; either way it goes
///   on to wait for the client's key.
/// - Waiting for the client's key: the line must announce a key. The server
///   then generates its keys, announces the public one and draws a nonce of
///   16 bytes.
/// - Waiting for the exchange under RSA: while no whole text line has
///   arrived, the server waits on. It answers a text line that opens the
///   exchange with the client's nonce and its own, and answers nothing to
///   another; either way it goes on to wait for its nonce.
/// - Waiting for its nonce: any other text line is a protocol error; the
///   right one is acknowledged.
/// - Waiting for the AES key: the text line must deliver a key.
/// - After the end, any line is a protocol error.
pub open spec fn server_step(
    old: ServerHandshake,
    line: Seq<char>,
    next: ServerHandshake,
    out: Result<Seq<Seq<char>>, HandshakeError>,
) -> bool {
    &&& out is Err ==> next is Failed
    &&& match old {
        ServerHandshake::AwaitBegin => match unsecure::ack_for(line) {
            Err(e) => out == Err::<Seq<Seq<char>>, HandshakeError>(e),
            Ok(Some(reply)) => out == Ok::<Seq<Seq<char>>, HandshakeError>(seq![reply])
                && next is AwaitClientKey,
            Ok(None) => out == Ok::<Seq<Seq<char>>, HandshakeError>(Seq::empty())
                && next is AwaitClientKey,
        },
        ServerHandshake::AwaitClientKey => match unsecure::announced_key(line) {
            Err(e) => out == Err::<Seq<Seq<char>>, HandshakeError>(e),
            Ok((n, e)) => match out {
                Err(err) => err == HandshakeError::KeyValidity,
                Ok(lines) => {
                    &&& next matches ServerHandshake::AwaitSecop { channel, nonce }
                    &&& channel.keys().spec_valid()
                    &&& generated(
                        channel.keys().spec_e(),
                        channel.keys().spec_d(),
                        channel.keys().spec_n(),
                        (RSA_KEY_BITS / 2) as nat,
                    )
                    &&& channel.peer_e() == e
                    &&& channel.peer_n() == n
                    &&& channel.pending() == Seq::<u8>::empty()
                    &&& is_nonce(nonce@, SECOND_NONCE_BYTES as nat)
                    &&& lines == seq![
                        unsecure::public_key_line(
                            PublicKey::format_spec(
                                channel.keys().spec_e(),
                                channel.keys().spec_n(),
                            ),
                        ),
                    ]
                },
            },
        },
        ServerHandshake::AwaitSecop { channel, nonce } => {
            match arrival(
                channel.pending(),
                line,
                channel.keys().spec_d(),
                channel.keys().spec_n(),
            ) {
                Err(e) => out == Err::<Seq<Seq<char>>, HandshakeError>(e),
                Ok((None, rest)) => {
                    &&& out == Ok::<Seq<Seq<char>>, HandshakeError>(Seq::empty())
                    &&& next matches ServerHandshake::AwaitSecop { channel: c, nonce: s }
                    &&& s@ == nonce@
                    &&& moved_on(channel, c, rest)
                },
                Ok((Some(text), rest)) => match secure::challenge_for(nonce@, text) {
                    Err(e) => out == Err::<Seq<Seq<char>>, HandshakeError>(e),
                    Ok(answer) => {
                        &&& out == (match answer {
                            Some(reply) => sending(reply, channel.peer_e(), channel.peer_n()),
                            None => Ok(Seq::empty()),
                        })
                        &&& out is Ok ==> {
                            &&& next matches ServerHandshake::AwaitRepeat { channel: c, nonce: s }
                            &&& s@ == nonce@
                            &&& moved_on(channel, c, rest)
                        }
                    },
                },
            }
        },
        ServerHandshake::AwaitRepeat { channel, nonce } => {
            match arrival(
                channel.pending(),
                line,
                channel.keys().spec_d(),
                channel.keys().spec_n(),
            ) {
                Err(e) => out == Err::<Seq<Seq<char>>, HandshakeError>(e),
                Ok((None, rest)) => {
                    &&& out == Ok::<Seq<Seq<char>>, HandshakeError>(Seq::empty())
                    &&& next matches ServerHandshake::AwaitRepeat { channel: c, nonce: s }
                    &&& s@ == nonce@
                    &&& moved_on(channel, c, rest)
                },
                Ok((Some(text), rest)) => {
                    if crate::text::trimmed(text) != nonce@ {
                        out == Err::<Seq<Seq<char>>, HandshakeError>(HandshakeError::Protocol)
                    } else {
                        {
                            &&& out == sending(
                                success_line(),
                                channel.peer_e(),
                                channel.peer_n(),
                            )
                            &&& out is Ok ==> {
                                &&& next matches ServerHandshake::AwaitAesKey { channel: c }
                                &&& moved_on(channel, c, rest)
                            }
                        }
                    }
                },
            }
        },
        ServerHandshake::AwaitAesKey { channel } => {
            match arrival(
                channel.pending(),
                line,
                channel.keys().spec_d(),
                channel.keys().spec_n(),
            ) {
                Err(e) => out == Err::<Seq<Seq<char>>, HandshakeError>(e),
                Ok((None, rest)) => {
                    &&& out == Ok::<Seq<Seq<char>>, HandshakeError>(Seq::empty())
                    &&& next matches ServerHandshake::AwaitAesKey { channel: c }
                    &&& moved_on(channel, c, rest)
                },
                Ok((Some(text), rest)) => match secure::delivered_key(text) {
                    Err(e) => out == Err::<Seq<Seq<char>>, HandshakeError>(e),
                    Ok(key) => {
                        &&& out == Ok::<Seq<Seq<char>>, HandshakeError>(Seq::empty())
                        &&& next matches ServerHandshake::Done { manager }
                        &&& manager.key_bytes() == key
                    },
                },
            }
        },
        ServerHandshake::Done { manager } => out == Err::<Seq<Seq<char>>, HandshakeError>(
            HandshakeError::Protocol,
        ),
        ServerHandshake::Failed => out == Err::<Seq<Seq<char>>, HandshakeError>(
            HandshakeError::Protocol,
        ),
    }
}

/// The line that acknowledges the exchange under RSA.
pub open spec fn success_line() -> Seq<char> {
    secure::SUCCESS_PHRASE@ + "\n"@
}

/// The line that acknowledges the exchange under RSA.
pub fn acknowledgment() -> (r: String)
    ensures
        r@ == success_line(),
{
    let mut out = secure::SUCCESS_PHRASE.to_owned();
    vstd::string::StringExecFns::append(&mut out, "\n");
    out
}

impl ServerHandshake {
    /// A server at the start of a handshake.
    pub fn start() -> (r: Self)
        ensures
            r is AwaitBegin,
    {
        ServerHandshake::AwaitBegin
    }

    /// One step of the server: takes in a line from the channel and hands
    /// back the next state with the lines to send.
    pub fn receive(self, line: &str) -> (r: (Self, Result<Vec<String>, HandshakeError>))
        ensures
            server_step(self, line@, r.0, step_output(r.1)),
    {
        match self {
            ServerHandshake::AwaitBegin => {
                match unsecure::server_ack(line) {
                    Err(e) => (ServerHandshake::Failed, Err(e)),
                    Ok(Some(reply)) => {
                        let mut out: Vec<String> = Vec::new();
                        out.push(reply);
                        assert(texts_of(out@) =~= seq![reply@]);
                        (ServerHandshake::AwaitClientKey, Ok(out))
                    },
                    Ok(None) => {
                        let out: Vec<String> = Vec::new();
                        assert(texts_of(out@) =~= Seq::<Seq<char>>::empty());
                        (ServerHandshake::AwaitClientKey, Ok(out))
                    },
                }
            },
            ServerHandshake::AwaitClientKey => {
                let peer = match unsecure::receive_public_key(line) {
                    Ok(k) => k,
                    Err(e) => { return (ServerHandshake::Failed, Err(e)); },
                };
                let keys = match RSAKeysGenerator::new(RSA_KEY_BITS).generate_keys() {
                    Some(k) => k,
                    None => { return (ServerHandshake::Failed, Err(HandshakeError::KeyValidity)); },
                };
                let own = keys.public_key();
                let announce = unsecure::send_public_key(&own);
                let mut out: Vec<String> = Vec::new();
                out.push(announce);
                assert(texts_of(out@) =~= seq![announce@]);
                let nonce = generate_nonce(SECOND_NONCE_BYTES);
                let channel = SecureChannel::new(keys, peer);
                (ServerHandshake::AwaitSecop { channel, nonce }, Ok(out))
            },
            ServerHandshake::AwaitSecop { channel, nonce } => {
                let (next, inner) = match channel.receive_line(line) {
                    Ok(pair) => pair,
                    Err(e) => { return (ServerHandshake::Failed, Err(e)); },
                };
                let text = match inner {
                    Some(t) => t,
                    None => {
                        let out: Vec<String> = Vec::new();
                        assert(texts_of(out@) =~= Seq::<Seq<char>>::empty());
                        return (ServerHandshake::AwaitSecop { channel: next, nonce }, Ok(out));
                    },
                };
                match secure::server_ack(nonce.as_str(), text.as_str()) {
                    Err(e) => (ServerHandshake::Failed, Err(e)),
                    Ok(None) => {
                        let out: Vec<String> = Vec::new();
                        assert(texts_of(out@) =~= Seq::<Seq<char>>::empty());
                        (ServerHandshake::AwaitRepeat { channel: next, nonce }, Ok(out))
                    },
                    Ok(Some(reply)) => match next.frame(reply.as_str()) {
                        Ok(out) => (ServerHandshake::AwaitRepeat { channel: next, nonce }, Ok(out)),
                        Err(e) => (ServerHandshake::Failed, Err(e)),
                    },
                }
            },
            ServerHandshake::AwaitRepeat { channel, nonce } => {
                let (next, inner) = match channel.receive_line(line) {
                    Ok(pair) => pair,
                    Err(e) => { return (ServerHandshake::Failed, Err(e)); },
                };
                let text = match inner {
                    Some(t) => t,
                    None => {
                        let out: Vec<String> = Vec::new();
                        assert(texts_of(out@) =~= Seq::<Seq<char>>::empty());
                        return (ServerHandshake::AwaitRepeat { channel: next, nonce }, Ok(out));
                    },
                };
                if !secure::client_repeat_correct(nonce.as_str(), text.as_str()) {
                    return (ServerHandshake::Failed, Err(HandshakeError::Protocol));
                }
                let ack = acknowledgment();
                match next.frame(ack.as_str()) {
                    Ok(out) => (ServerHandshake::AwaitAesKey { channel: next }, Ok(out)),
                    Err(e) => (ServerHandshake::Failed, Err(e)),
                }
            },
            ServerHandshake::AwaitAesKey { channel } => {
                let (next, inner) = match channel.receive_line(line) {
                    Ok(pair) => pair,
                    Err(e) => { return (ServerHandshake::Failed, Err(e)); },
                };
                let text = match inner {
                    Some(t) => t,
                    None => {
                        let out: Vec<String> = Vec::new();
                        assert(texts_of(out@) =~= Seq::<Seq<char>>::empty());
                        return (ServerHandshake::AwaitAesKey { channel: next }, Ok(out));
                    },
                };
                match secure::get_aes_key(text.as_str()) {
                    Err(e) => (ServerHandshake::Failed, Err(e)),
                    Ok(manager) => {
                        let out: Vec<String> = Vec::new();
                        assert(texts_of(out@) =~= Seq::<Seq<char>>::empty());
                        (ServerHandshake::Done { manager }, Ok(out))
                    },
                }
            },
            ServerHandshake::Done { manager } => (
                ServerHandshake::Failed,
                Err(HandshakeError::Protocol),
            ),
            ServerHandshake::Failed => (ServerHandshake::Failed, Err(HandshakeError::Protocol)),
        }
    }

    /// The AES manager of a handshake that has ended well.
    pub fn manager(self) -> (r: Option<AESManager>)
        ensures
            match self {
                ServerHandshake::Done { manager } => r == Some(manager),
                _ => r is None,
            },
    {
        match self {
            ServerHandshake::Done { manager } => Some(manager),
            _ => None,
        }
    }
}

} // verus!
