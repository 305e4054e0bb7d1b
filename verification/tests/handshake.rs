use hybrid_session::encryption::aes_session::{AESManager, KeySize};
use hybrid_session::encryption::rsa::{PublicKey, RSAKeys};
use hybrid_session::encryption::{
    byte_decimal, generate_nonce, nonce_from_bytes, secure, unsecure, HandshakeError,
};
use hybrid_session::channel::SecureChannel;
use hybrid_session::handshake::{acknowledgment, ClientHandshake, ServerHandshake};
use num_bigint::BigUint;

fn small_keys() -> RSAKeys {
    RSAKeys::new(BigUint::from(17u32), BigUint::from(2753u32), BigUint::from(3233u32)).unwrap()
}

fn other_small_keys() -> RSAKeys {
    // 2773 is 47 * 59
    RSAKeys::new(BigUint::from(17u32), BigUint::from(157u32), BigUint::from(2773u32)).unwrap()
}

fn hex_key() -> &'static str {
    "a0a1a2a3a4a5a6a7a8a9aaabacadaeaf"
}

/// Feeds `lines` to a channel and gives back the text lines that come out.
fn deliver(mut channel: SecureChannel, lines: &[String]) -> (SecureChannel, Vec<String>) {
    let mut texts = Vec::new();
    for line in lines {
        let (next, text) = channel.receive_line(line).unwrap();
        channel = next;
        if let Some(text) = text {
            texts.push(text);
        }
    }
    (channel, texts)
}

/// Runs both machines against each other until neither has anything to send
/// or one of them fails.
fn run(
    client: ClientHandshake,
    first: String,
    server: ServerHandshake,
) -> Result<(ClientHandshake, ServerHandshake), HandshakeError> {
    let mut client = client;
    let mut server = server;
    let mut to_server = vec![first];
    let mut to_client: Vec<String> = Vec::new();
    while !to_server.is_empty() || !to_client.is_empty() {
        for line in std::mem::take(&mut to_server) {
            let (next, out) = server.receive(&line);
            server = next;
            to_client.extend(out?);
        }
        for line in std::mem::take(&mut to_client) {
            let (next, out) = client.receive(&line);
            client = next;
            to_server.extend(out?);
        }
    }
    Ok((client, server))
}

#[test]
fn handshake_end_to_end_in_memory() {
    let mut done = None;
    for _ in 0..8 {
        let (client, first) = ClientHandshake::start();
        match run(client, first, ServerHandshake::start()) {
            Ok(pair) => {
                done = Some(pair);
                break;
            }
            // one key in 256 begins with a zero byte, and its text is read as a shorter key
            Err(e) => assert_eq!(e, HandshakeError::Cipher),
        }
    }
    let (client, server) = done.unwrap();
    assert!(matches!(client, ClientHandshake::Done { .. }));
    assert!(matches!(server, ServerHandshake::Done { .. }));
    let client_key = client.manager().unwrap();
    let server_key = server.manager().unwrap();
    assert_eq!(client_key.parsable_string(), server_key.parsable_string());
    assert_eq!(client_key.key_value(), server_key.key_value());
    assert_eq!(client_key.key_value().len(), 32);
    let message = b"after the handshake";
    let mut padded = message.to_vec();
    padded.resize(32, 0);
    assert_eq!(server_key.decrypt(&client_key.encrypt(message)), padded);
}

#[test]
fn handshake_fails_on_a_wrong_nonce_echo() {
    let (client, first) = ClientHandshake::begin("1234".to_string());
    assert_eq!(first, "COM_BEGIN 1234\n");
    let (client, out) = client.receive("1235\n");
    assert_eq!(out, Err(HandshakeError::Protocol));
    assert!(matches!(client, ClientHandshake::Failed));
    assert!(client.manager().is_none());
    let (client, _) = ClientHandshake::begin("1234".to_string());
    let (client, out) = client.receive("\n");
    assert_eq!(out, Err(HandshakeError::Protocol));
    let (client, out) = client.receive("1234\n");
    assert_eq!(out, Err(HandshakeError::Protocol));
    assert!(matches!(client, ClientHandshake::Failed));
}

#[test]
fn client_announces_its_key_after_the_right_echo() {
    let (client, _) = ClientHandshake::begin("1234".to_string());
    let (client, out) = client.receive("  1234 \n");
    let out = out.unwrap();
    assert_eq!(out.len(), 1);
    match client {
        ClientHandshake::AwaitServerKey { keys } => {
            assert!(keys.valid());
            assert_eq!(out[0], format!("RSA:{}\n", keys.public_key().to_string()));
            assert!(keys.public_key().n_value().bits() >= 511);
        }
        _ => panic!("the client did not go on"),
    }
}

#[test]
fn client_refuses_a_bad_server_key() {
    for (line, error) in [
        ("RSB:3233 17\n", HandshakeError::Protocol),
        ("RSA\n", HandshakeError::Protocol),
        ("RSA:3233\n", HandshakeError::Parse),
        ("RSA:(3233, 17)\n", HandshakeError::Parse),
        ("RSA:35 5\n", HandshakeError::Transport),
        ("RSA:0 5\n", HandshakeError::Transport),
    ] {
        let client = ClientHandshake::AwaitServerKey { keys: small_keys() };
        let (client, out) = client.receive(line);
        assert_eq!(out, Err(error));
        assert!(matches!(client, ClientHandshake::Failed));
    }
}

#[test]
fn client_and_server_exchange_nonces_under_rsa() {
    let client = ClientHandshake::AwaitServerKey { keys: small_keys() };
    let (client, opening) = client.receive("RSA:2773 17\n");
    let opening = opening.unwrap();
    let second_nonce = match &client {
        ClientHandshake::AwaitChallenge { second_nonce, .. } => second_nonce.clone(),
        _ => panic!("the client did not go on"),
    };
    let text = format!("SECOP_BEGIN {}\n", second_nonce);
    assert_eq!(opening.len(), text.len());

    let server_channel = SecureChannel::new(other_small_keys(), small_keys().public_key());
    let mut server = ServerHandshake::AwaitSecop { channel: server_channel, nonce: "77".to_string() };
    let mut challenge = Vec::new();
    for line in &opening {
        let (next, out) = server.receive(line);
        server = next;
        challenge.extend(out.unwrap());
    }
    assert!(matches!(server, ServerHandshake::AwaitRepeat { .. }));
    assert_eq!(challenge.len(), second_nonce.len() + 4);

    let mut client = client;
    let mut response = Vec::new();
    for line in &challenge {
        let (next, out) = client.receive(line);
        client = next;
        response.extend(out.unwrap());
    }
    assert!(matches!(client, ClientHandshake::AwaitSuccess { .. }));
    assert_eq!(response.len(), 3);

    let mut success = Vec::new();
    for line in &response {
        let (next, out) = server.receive(line);
        server = next;
        success.extend(out.unwrap());
    }
    assert!(matches!(server, ServerHandshake::AwaitAesKey { .. }));
    assert_eq!(success.len(), 8);

    let mut delivery = Vec::new();
    for line in &success {
        let (next, out) = client.receive(line);
        client = next;
        delivery.extend(out.unwrap());
    }
    let client_key = client.manager().unwrap();
    assert_eq!(delivery.len(), "AES_KEY:".len() + client_key.parsable_string().len() + 1);
    let mut last = Ok(Vec::new());
    for line in &delivery {
        let (next, out) = server.receive(line);
        server = next;
        last = out;
    }
    if client_key.key_value()[0] == 0 {
        // the text of such a key is read as a shorter key
        assert_eq!(last, Err(HandshakeError::Cipher));
    } else {
        assert_eq!(last, Ok(Vec::new()));
        assert_eq!(server.manager().unwrap().parsable_string(), client_key.parsable_string());
    }
}

#[test]
fn client_refuses_a_challenge_with_another_nonce() {
    let sender = SecureChannel::new(other_small_keys(), small_keys().public_key());
    for (text, error) in [
        ("8 77\n", Some(HandshakeError::Protocol)),
        ("9\n", Some(HandshakeError::Protocol)),
        ("\n", Some(HandshakeError::Protocol)),
        ("9 77\n", None),
    ] {
        let channel = SecureChannel::new(small_keys(), other_small_keys().public_key());
        let mut client = ClientHandshake::AwaitChallenge { channel, second_nonce: "9".to_string() };
        let mut last = Ok(Vec::new());
        for line in sender.frame(text).unwrap() {
            let (next, out) = client.receive(&line);
            client = next;
            last = out;
        }
        match error {
            Some(e) => {
                assert_eq!(last, Err(e));
                assert!(matches!(client, ClientHandshake::Failed));
            }
            None => {
                assert_eq!(last.unwrap().len(), 3);
                assert!(matches!(client, ClientHandshake::AwaitSuccess { .. }));
            }
        }
    }
}

#[test]
fn client_needs_the_success_phrase() {
    let sender = SecureChannel::new(other_small_keys(), small_keys().public_key());
    let channel = SecureChannel::new(small_keys(), other_small_keys().public_key());
    let mut client = ClientHandshake::AwaitSuccess { channel };
    let mut last = Ok(Vec::new());
    for line in sender.frame("FAILURE\n").unwrap() {
        let (next, out) = client.receive(&line);
        client = next;
        last = out;
    }
    assert_eq!(last, Err(HandshakeError::Protocol));
    assert!(matches!(client, ClientHandshake::Failed));
}

#[test]
fn finished_and_failed_machines_take_no_more_lines() {
    let manager = AESManager::new(KeySize::K256);
    let (client, out) = ClientHandshake::Done { manager }.receive("more\n");
    assert_eq!(out, Err(HandshakeError::Protocol));
    assert!(matches!(client, ClientHandshake::Failed));
    let (_, out) = ClientHandshake::Failed.receive("more\n");
    assert_eq!(out, Err(HandshakeError::Protocol));
    let manager = AESManager::new(KeySize::K256);
    let (server, out) = ServerHandshake::Done { manager }.receive("more\n");
    assert_eq!(out, Err(HandshakeError::Protocol));
    assert!(matches!(server, ServerHandshake::Failed));
    let (_, out) = ServerHandshake::Failed.receive("more\n");
    assert_eq!(out, Err(HandshakeError::Protocol));
}

#[test]
fn server_answers_the_first_line() {
    let (server, out) = ServerHandshake::start().receive("COM_BEGIN 1234\n");
    assert_eq!(out, Ok(vec!["1234\n".to_string()]));
    assert!(matches!(server, ServerHandshake::AwaitClientKey));
    let (server, out) = ServerHandshake::start().receive("HELLO 1234\n");
    assert_eq!(out, Ok(Vec::new()));
    assert!(matches!(server, ServerHandshake::AwaitClientKey));
    let (server, out) = ServerHandshake::start().receive("COM_BEGIN\n");
    assert_eq!(out, Err(HandshakeError::Protocol));
    assert!(matches!(server, ServerHandshake::Failed));
}

#[test]
fn server_announces_its_key_after_the_clients() {
    let (server, out) = ServerHandshake::AwaitClientKey.receive("RSA:3233 17\n");
    let out = out.unwrap();
    match server {
        ServerHandshake::AwaitSecop { nonce, .. } => {
            assert!(nonce.len() >= 16 && nonce.len() <= 48);
            assert!(out.len() == 1 && out[0].starts_with("RSA:") && out[0].ends_with('\n'));
            let key = PublicKey::from_str(&out[0][4..]).unwrap();
            assert!(key.n_value().bits() >= 511);
        }
        _ => panic!("the server did not go on"),
    }
    let (server, out) = ServerHandshake::AwaitClientKey.receive("AES:3233 17\n");
    assert_eq!(out, Err(HandshakeError::Protocol));
    assert!(matches!(server, ServerHandshake::Failed));
    let (_, out) = ServerHandshake::AwaitClientKey.receive("RSA:3233 seventeen\n");
    assert_eq!(out, Err(HandshakeError::Parse));
}

#[test]
fn server_goes_on_without_answer_when_the_exchange_is_not_opened() {
    let sender = SecureChannel::new(small_keys(), other_small_keys().public_key());
    let channel = SecureChannel::new(other_small_keys(), small_keys().public_key());
    let mut server = ServerHandshake::AwaitSecop { channel, nonce: "77".to_string() };
    for line in sender.frame("HELLO 9\n").unwrap() {
        let (next, out) = server.receive(&line);
        server = next;
        assert_eq!(out, Ok(Vec::new()));
    }
    assert!(matches!(server, ServerHandshake::AwaitRepeat { .. }));
    let channel = SecureChannel::new(other_small_keys(), small_keys().public_key());
    let mut server = ServerHandshake::AwaitSecop { channel, nonce: "77".to_string() };
    let mut last = Ok(Vec::new());
    for line in sender.frame("SECOP_BEGIN\n").unwrap() {
        let (next, out) = server.receive(&line);
        server = next;
        last = out;
    }
    assert_eq!(last, Err(HandshakeError::Protocol));
    assert!(matches!(server, ServerHandshake::Failed));
}

#[test]
fn server_needs_its_nonce_back() {
    let sender = SecureChannel::new(small_keys(), other_small_keys().public_key());
    let channel = SecureChannel::new(other_small_keys(), small_keys().public_key());
    let mut server = ServerHandshake::AwaitRepeat { channel, nonce: "77".to_string() };
    let mut last = Ok(Vec::new());
    for line in sender.frame("78\n").unwrap() {
        let (next, out) = server.receive(&line);
        server = next;
        last = out;
    }
    assert_eq!(last, Err(HandshakeError::Protocol));
    assert!(matches!(server, ServerHandshake::Failed));
}

#[test]
fn server_reads_the_delivered_key() {
    let sender = SecureChannel::new(small_keys(), other_small_keys().public_key());
    for (text, error) in [
        (format!("AES_KEY:{}\n", hex_key()), None),
        (format!("AES_KEI:{}\n", hex_key()), Some(HandshakeError::Protocol)),
        ("AES_KEY\n".to_string(), Some(HandshakeError::Protocol)),
        ("AES_KEY:xyz\n".to_string(), Some(HandshakeError::Parse)),
        ("AES_KEY:a0a1\n".to_string(), Some(HandshakeError::Cipher)),
    ] {
        let channel = SecureChannel::new(other_small_keys(), small_keys().public_key());
        let mut server = ServerHandshake::AwaitAesKey { channel };
        let mut last = Ok(Vec::new());
        for line in sender.frame(&text).unwrap() {
            let (next, out) = server.receive(&line);
            server = next;
            last = out;
        }
        match error {
            Some(e) => {
                assert_eq!(last, Err(e));
                assert!(matches!(server, ServerHandshake::Failed));
            }
            None => {
                assert_eq!(last, Ok(Vec::new()));
                assert_eq!(server.manager().unwrap().parsable_string(), hex_key());
            }
        }
    }
}

#[test]
fn channel_cuts_text_into_lines_and_joins_it_again() {
    let sender = SecureChannel::new(small_keys(), other_small_keys().public_key());
    let lines = sender.frame("hi\n").unwrap();
    // the key carries one byte a line: 104^17, 105^17 and 10^17 modulo 2773
    assert_eq!(lines.len(), 3);
    let h = BigUint::from(104u32).modpow(&BigUint::from(17u32), &BigUint::from(2773u32));
    assert_eq!(lines[0], format!("{}\n", h));
    assert!(sender.frame("").unwrap().is_empty());
    let receiver = SecureChannel::new(other_small_keys(), small_keys().public_key());
    let (receiver, text) = receiver.receive_line(&lines[0]).unwrap();
    assert_eq!(text, None);
    let (receiver, text) = receiver.receive_line(&lines[1]).unwrap();
    assert_eq!(text, None);
    let (receiver, text) = receiver.receive_line(&lines[2]).unwrap();
    assert_eq!(text, Some("hi\n".to_string()));
    let (_, texts) = deliver(receiver, &sender.frame("é\nrest").unwrap());
    assert_eq!(texts, vec!["é\n".to_string()]);
}

#[test]
fn channel_errors() {
    let sender = SecureChannel::new(small_keys(), other_small_keys().public_key());
    let receiver = SecureChannel::new(other_small_keys(), small_keys().public_key());
    assert_eq!(receiver.receive_line("twelve\n").err(), Some(HandshakeError::Parse));
    let receiver = SecureChannel::new(other_small_keys(), small_keys().public_key());
    let mut last = None;
    let mut channel = Some(receiver);
    for line in sender.frame("\u{ff}\u{fe}\n").unwrap().iter().skip(1) {
        match channel.take().unwrap().receive_line(line) {
            Ok((next, _)) => channel = Some(next),
            Err(e) => {
                last = Some(e);
                break;
            }
        }
    }
    assert_eq!(last, Some(HandshakeError::Transport));
    let no_modulus = RSAKeys::new_unchecked(BigUint::from(1u32), BigUint::from(1u32), BigUint::from(0u32));
    let receiver = SecureChannel::new(no_modulus, small_keys().public_key());
    assert_eq!(receiver.receive_line("12\n").err(), Some(HandshakeError::KeyValidity));
    let tiny = PublicKey::new(BigUint::from(5u32), BigUint::from(35u32));
    let sender = SecureChannel::new(small_keys(), tiny);
    assert_eq!(sender.frame("a"), Err(HandshakeError::Transport));
    assert_eq!(sender.frame(""), Ok(Vec::new()));
    let none = PublicKey::new(BigUint::from(5u32), BigUint::from(0u32));
    let sender = SecureChannel::new(small_keys(), none);
    assert_eq!(sender.frame(""), Err(HandshakeError::Transport));
}

#[test]
fn clear_text_messages() {
    assert_eq!(unsecure::HANDSHAKE_START_PHRASE, "COM_BEGIN");
    assert_eq!(unsecure::handshake_start("1234"), "COM_BEGIN 1234\n");
    assert_eq!(unsecure::server_ack("COM_BEGIN 1234\n"), Ok(Some("1234\n".to_string())));
    assert_eq!(unsecure::server_ack("  COM_BEGIN   1234  5\n"), Ok(Some("1234\n".to_string())));
    assert_eq!(unsecure::server_ack("COM_BEGINS 1234\n"), Ok(None));
    assert_eq!(unsecure::server_ack("\n"), Ok(None));
    assert_eq!(unsecure::server_ack(""), Ok(None));
    assert_eq!(unsecure::server_ack("COM_BEGIN \n"), Err(HandshakeError::Protocol));
    assert!(unsecure::receive_ack("1234", "1234\n"));
    assert!(unsecure::receive_ack("1234", " 1234 "));
    assert!(!unsecure::receive_ack("1234", "12345\n"));
    assert!(!unsecure::receive_ack("1234", "12 34\n"));
    assert!(unsecure::receive_ack("", "\n"));
    assert!(unsecure::same_text("a", "a") && !unsecure::same_text("a", "b"));
    let key = small_keys().public_key();
    assert_eq!(unsecure::send_public_key(&key), "RSA:3233 17\n");
    let back = unsecure::receive_public_key("RSA:3233 17\n").unwrap();
    assert_eq!(back.to_string(), "3233 17");
    let back = unsecure::receive_public_key(" RSA:3233 17:more \n").unwrap();
    assert_eq!(back.to_string(), "3233 17");
    assert_eq!(unsecure::receive_public_key("rsa:3233 17\n").err(), Some(HandshakeError::Protocol));
    assert_eq!(unsecure::receive_public_key("RSA 3233 17\n").err(), Some(HandshakeError::Protocol));
    assert_eq!(unsecure::receive_public_key("RSA\n").err(), Some(HandshakeError::Protocol));
    assert_eq!(unsecure::receive_public_key("RSA:\n").err(), Some(HandshakeError::Parse));
    assert_eq!(unsecure::receive_public_key("RSA:3233:17\n").err(), Some(HandshakeError::Parse));
}

#[test]
fn messages_under_rsa() {
    assert_eq!(secure::HANDSHAKE_START_PHRASE, "SECOP_BEGIN");
    assert_eq!(hybrid_session::HANDSHAKE_START_PHRASE, "SECOP_BEGIN");
    assert_eq!(secure::handshake_start("9"), "SECOP_BEGIN 9\n");
    assert_eq!(hybrid_session::handshake_start("9"), "SECOP_BEGIN 9\n");
    assert_eq!(secure::server_ack("77", "SECOP_BEGIN 9\n"), Ok(Some("9 77\n".to_string())));
    assert_eq!(secure::server_ack("77", "COM_BEGIN 9\n"), Ok(None));
    assert_eq!(secure::server_ack("77", "\n"), Ok(None));
    assert_eq!(secure::server_ack("77", "SECOP_BEGIN\n"), Err(HandshakeError::Protocol));
    assert_eq!(secure::receive_and_repeat("9", "9 77\n"), Ok("77\n".to_string()));
    assert_eq!(secure::receive_and_repeat("9", " 9  77 1\n"), Ok("77\n".to_string()));
    assert_eq!(secure::receive_and_repeat("9", "8 77\n"), Err(HandshakeError::Protocol));
    assert_eq!(secure::receive_and_repeat("9", "9\n"), Err(HandshakeError::Protocol));
    assert_eq!(secure::receive_and_repeat("9", "\n"), Err(HandshakeError::Protocol));
    assert_eq!(secure::receive_and_repeat("", "\n"), Err(HandshakeError::Protocol));
    assert_eq!(hybrid_session::receive_and_repeat("9", "9 77\n"), Ok("77\n".to_string()));
    assert!(secure::client_repeat_correct("77", "77\n"));
    assert!(!secure::client_repeat_correct("77", "78\n"));
    assert!(!secure::client_repeat_correct("77", "7 7\n"));
    assert!(secure::encryption_successful("SUCCESS\n"));
    assert!(secure::encryption_successful("  SUCCESS  "));
    assert!(!secure::encryption_successful("SUCCESS 1\n"));
    assert!(!secure::encryption_successful("success\n"));
    assert!(hybrid_session::encryption_successful("SUCCESS\n"));
    assert_eq!(acknowledgment(), "SUCCESS\n");
    let manager = AESManager::from_str(hex_key()).unwrap();
    let line = secure::begin_aes_encryption_client(&manager);
    assert_eq!(line, format!("AES_KEY:{}\n", hex_key()));
    assert_eq!(hybrid_session::begin_aes_encryption_client(&manager), line);
    assert_eq!(secure::get_aes_key(&line).unwrap().key_value(), manager.key_value());
    assert_eq!(hybrid_session::get_aes_key(&line).unwrap().key_value(), manager.key_value());
    assert_eq!(secure::get_aes_key("AES_KEY a0\n").err(), Some(HandshakeError::Protocol));
    assert_eq!(secure::get_aes_key("AES_KEY\n").err(), Some(HandshakeError::Protocol));
    assert_eq!(secure::get_aes_key("AES_KEY:\n").err(), Some(HandshakeError::Parse));
    assert_eq!(secure::get_aes_key("AES_KEY:a0 a1\n").err(), Some(HandshakeError::Parse));
    assert_eq!(secure::get_aes_key("AES_KEY:a0a1a2\n").err(), Some(HandshakeError::Cipher));
}

#[test]
fn nonces_are_bytes_in_decimal() {
    assert_eq!(nonce_from_bytes(&[1, 23, 255, 0, 100, 9, 10, 99]), "123255010091099");
    assert_eq!(nonce_from_bytes(&[]), "");
    assert_eq!(nonce_from_bytes(&[12, 3]), nonce_from_bytes(&[1, 23]));
    for b in 0u8..=255 {
        assert_eq!(byte_decimal(b), format!("{}", b));
    }
    for size in [0usize, 1, 4, 16] {
        let nonce = generate_nonce(size);
        assert!(nonce.len() >= size && nonce.len() <= 3 * size);
        assert!(nonce.chars().all(|c| c.is_ascii_digit()));
        assert_eq!(hybrid_session::generate_nonce(size).is_empty(), size == 0);
    }
    assert!((0..20).any(|_| generate_nonce(16) != generate_nonce(16)));
}
