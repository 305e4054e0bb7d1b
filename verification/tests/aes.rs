use aes::cipher::block::Block;
use aes::cipher::generic_array::GenericArray;
use aes::{Aes192, BlockCipher};
use hybrid_session::encryption::aes_session::{
    generate_key, AESManager, AESManagerParseError, Key, KeySize,
};

fn counting_key(len: usize) -> Vec<u8> {
    (0..len).map(|i| i as u8).collect()
}

fn fips_plaintext() -> Vec<u8> {
    vec![
        0x00, 0x11, 0x22, 0x33, 0x44, 0x55, 0x66, 0x77, 0x88, 0x99, 0xaa, 0xbb, 0xcc, 0xdd, 0xee,
        0xff,
    ]
}

#[test]
fn aes_test() {
    let (key, _) = generate_key(KeySize::K192);
    let clone = key.clone();
    let key192 = key.aes192().unwrap();

    let phrase = b"Hello, World!";
    let mut slice = [0u8; 16];
    for (a, b) in phrase.into_iter().zip(&mut slice) {
        *b = *a;
    }
    let mut block: Block<Aes192> = GenericArray::clone_from_slice(&slice);
    println!("Start: {:?}", block);
    key192.encrypt_block(&mut block);
    println!("Encrypted: {:?}", block);
    clone.aes192().unwrap().decrypt_block(&mut block);
    println!("Decrypted: {:?}", block);
    assert_eq!(block.as_slice(), slice);
}

#[test]
fn propagate_key() {
    let mut key = AESManager::new(KeySize::K192);
    // a key that begins with a zero byte has no text that reads back as a key
    while key.key_value()[0] == 0 {
        key = AESManager::new(KeySize::K192);
    }
    let string = key.parsable_string();
    let key2 = AESManager::from_str(string.as_str()).unwrap();
    let phrase = b"Hello, World!";
    let mut slice = [0u8; 16];
    for (a, b) in phrase.into_iter().zip(&mut slice) {
        *b = *a;
    }
    let mut block: Block<Aes192> = GenericArray::clone_from_slice(&slice);
    key.key().aes192().unwrap().encrypt_block(&mut block);
    key2.key().aes192().unwrap().decrypt_block(&mut block);
    assert_eq!(block.as_slice(), slice);
}

#[test]
fn aes128_known_answer() {
    let manager = AESManager::from_key_bytes(counting_key(16)).unwrap();
    let blocks = manager.encrypt(&fips_plaintext());
    assert_eq!(
        blocks,
        vec![[
            0x69, 0xc4, 0xe0, 0xd8, 0x6a, 0x7b, 0x04, 0x30, 0xd8, 0xcd, 0xb7, 0x80, 0x70, 0xb4,
            0xc5, 0x5a
        ]]
    );
    assert_eq!(manager.decrypt(&blocks), fips_plaintext());
}

#[test]
fn aes192_known_answer() {
    let manager = AESManager::from_key_bytes(counting_key(24)).unwrap();
    let blocks = manager.encrypt(&fips_plaintext());
    assert_eq!(
        blocks,
        vec![[
            0xdd, 0xa9, 0x7c, 0xa4, 0x86, 0x4c, 0xdf, 0xe0, 0x6e, 0xaf, 0x70, 0xa0, 0xec, 0x0d,
            0x71, 0x91
        ]]
    );
    assert_eq!(manager.decrypt(&blocks), fips_plaintext());
}

#[test]
fn aes256_known_answer() {
    let manager = AESManager::from_key_bytes(counting_key(32)).unwrap();
    let blocks = manager.encrypt(&fips_plaintext());
    assert_eq!(
        blocks,
        vec![[
            0x8e, 0xa2, 0xb7, 0xca, 0x51, 0x67, 0x45, 0xbf, 0xea, 0xfc, 0x49, 0x90, 0x4b, 0x49,
            0x60, 0x89
        ]]
    );
    assert_eq!(manager.decrypt(&blocks), fips_plaintext());
}

#[test]
fn block_wrappers_change_the_block() {
    let key = Key::from_bytes(&counting_key(16)).unwrap();
    let plain = [7u8; 16];
    let encrypted = key.encrypt_block(&plain);
    assert_ne!(encrypted, plain);
    assert_ne!(key.decrypt_block(&plain), plain);
    assert_eq!(key.decrypt_block(&encrypted), plain);
}

#[test]
fn decrypt_of_encrypt_is_the_padded_message() {
    for size in [KeySize::K128, KeySize::K192, KeySize::K256] {
        let manager = AESManager::new(size);
        for len in [0usize, 1, 15, 16, 17, 31, 32, 33, 100] {
            let message: Vec<u8> = (0..len).map(|i| (i * 7 + 1) as u8).collect();
            let blocks = manager.encrypt(&message);
            assert_eq!(blocks.len(), (len + 15) / 16);
            let mut padded = message.clone();
            while padded.len() % 16 != 0 {
                padded.push(0);
            }
            assert_eq!(manager.decrypt(&blocks), padded);
        }
    }
}

#[test]
fn encrypt_of_nothing_is_nothing() {
    let manager = AESManager::new(KeySize::K128);
    assert!(manager.encrypt(&[]).is_empty());
    assert!(manager.decrypt(&[]).is_empty());
}

#[test]
fn equal_blocks_encrypt_equally() {
    let manager = AESManager::new(KeySize::K256);
    let blocks = manager.encrypt(&[9u8; 32]);
    assert_eq!(blocks.len(), 2);
    assert_eq!(blocks[0], blocks[1]);
}

#[test]
fn hello_world_is_padded_with_five_zero_bytes() {
    let manager = AESManager::from_key_bytes(counting_key(16)).unwrap();
    let blocks = manager.encrypt(b"Hello World");
    assert_eq!(blocks.len(), 1);
    assert_eq!(manager.decrypt(&blocks), b"Hello World\0\0\0\0\0".to_vec());
}

#[test]
fn generated_keys_have_their_size() {
    for (size, bits, len) in [(KeySize::K128, 128u16, 16usize), (KeySize::K192, 192, 24), (KeySize::K256, 256, 32)] {
        assert_eq!(size.bits(), bits);
        let manager = AESManager::new(size);
        assert_eq!(manager.key_value().len(), len);
        assert_eq!(manager.key().cipher_size(), size);
        let (key, bytes) = generate_key(size);
        assert_eq!(bytes.len(), len);
        assert_eq!(key.cipher_size(), size);
    }
}

#[test]
fn key_accessors_follow_the_variant() {
    let k128 = Key::from_bytes(&counting_key(16)).unwrap();
    assert!(k128.aes128().is_some() && k128.aes192().is_none() && k128.aes256().is_none());
    let k192 = Key::from_bytes(&counting_key(24)).unwrap();
    assert!(k192.aes128().is_none() && k192.aes192().is_some() && k192.aes256().is_none());
    let k256 = Key::from_bytes(&counting_key(32)).unwrap();
    assert!(k256.aes128().is_none() && k256.aes192().is_none() && k256.aes256().is_some());
}

#[test]
fn keys_of_other_lengths_are_refused() {
    for len in [0usize, 1, 15, 17, 23, 25, 31, 33, 64] {
        assert!(Key::from_bytes(&counting_key(len)).is_err());
        assert!(AESManager::from_key_bytes(counting_key(len)).is_err());
    }
}

#[test]
fn parsable_string_is_lower_case_hex_without_leading_zeros() {
    let key: Vec<u8> = (0..16).map(|i| 0xa0 + i as u8).collect();
    let manager = AESManager::from_key_bytes(key).unwrap();
    assert_eq!(manager.parsable_string(), "a0a1a2a3a4a5a6a7a8a9aaabacadaeaf");
    let mut key = counting_key(16);
    key[0] = 0x0b;
    let manager = AESManager::from_key_bytes(key).unwrap();
    assert_eq!(manager.parsable_string(), "b0102030405060708090a0b0c0d0e0f");
    let manager = AESManager::from_key_bytes(counting_key(16)).unwrap();
    assert_eq!(manager.parsable_string(), "102030405060708090a0b0c0d0e0f");
    let manager = AESManager::from_key_bytes(vec![0u8; 16]).unwrap();
    assert_eq!(manager.parsable_string(), "0");
}

#[test]
fn from_str_reads_what_parsable_string_wrote() {
    for len in [16usize, 24, 32] {
        let key: Vec<u8> = (0..len).map(|i| (i * 11 + 3) as u8).collect();
        let manager = AESManager::from_key_bytes(key.clone()).unwrap();
        let again = AESManager::from_str(&manager.parsable_string()).unwrap();
        assert_eq!(again.key_value(), &key[..]);
        let message = b"what one encrypts the other decrypts";
        let mut padded = message.to_vec();
        while padded.len() % 16 != 0 {
            padded.push(0);
        }
        assert_eq!(again.decrypt(&manager.encrypt(message)), padded);
    }
}

#[test]
fn a_key_with_a_leading_zero_byte_does_not_read_back() {
    let manager = AESManager::from_key_bytes(counting_key(16)).unwrap();
    assert!(AESManager::from_str(&manager.parsable_string()).is_err());
    let mut key = counting_key(32);
    for b in key.iter_mut().take(8) {
        *b = 0;
    }
    let manager = AESManager::from_key_bytes(key.clone()).unwrap();
    let shorter = AESManager::from_str(&manager.parsable_string()).unwrap();
    assert_eq!(shorter.key_value(), &key[8..]);
}

#[test]
fn from_str_follows_the_number_grammar() {
    let text = "a0a1a2a3a4a5a6a7a8a9aaabacadaeaf";
    let key: Vec<u8> = (0..16).map(|i| 0xa0 + i as u8).collect();
    assert_eq!(AESManager::from_str(text).unwrap().key_value(), &key[..]);
    assert_eq!(AESManager::from_str("A0A1A2A3A4A5A6A7A8A9AAABACADAEAF").unwrap().key_value(), &key[..]);
    assert_eq!(AESManager::from_str("+a0a1a2a3a4a5a6a7a8a9aaabacadaeaf").unwrap().key_value(), &key[..]);
    assert_eq!(AESManager::from_str("a0a1_a2a3_a4a5_a6a7_a8a9_aaab_acad_aeaf_").unwrap().key_value(), &key[..]);
    let parsed: AESManager = text.parse().unwrap();
    assert_eq!(parsed.key_value(), &key[..]);
    assert!("a0a1".parse::<AESManager>().is_err());
    assert!(AESManager::from_str("").is_err());
    assert!(AESManager::from_str("+").is_err());
    assert!(AESManager::from_str("++a0a1a2a3a4a5a6a7a8a9aaabacadaeaf").is_err());
    assert!(AESManager::from_str("_a0a1a2a3a4a5a6a7a8a9aaabacadaeaf").is_err());
    assert!(AESManager::from_str("+_a0a1a2a3a4a5a6a7a8a9aaabacadaeaf").is_err());
    assert!(AESManager::from_str("a0a1a2a3a4a5a6a7a8a9aaabacadaeag").is_err());
    assert!(AESManager::from_str(" a0a1a2a3a4a5a6a7a8a9aaabacadaeaf").is_err());
    assert!(AESManager::from_str("-a0a1a2a3a4a5a6a7a8a9aaabacadaeaf").is_err());
    assert!(AESManager::from_str("ff").is_err());
    assert!(AESManager::from_str("00a0a1a2a3a4a5a6a7a8a9aaabacadaeaf").is_ok());
    assert!(AESManager::from_str("a0a1a2a3a4a5a6a7a8a9aaabacadaeaf00").is_err());
}

#[test]
fn parse_error_has_a_name() {
    let error: AESManagerParseError = AESManager::from_str("no key").unwrap_err();
    assert_eq!(error.to_string(), "AESManagerParseError");
}
