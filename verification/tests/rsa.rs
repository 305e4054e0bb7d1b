use std::str::FromStr;

use hybrid_session::encryption::rsa::RSAMessage::Decrypted;
use hybrid_session::encryption::rsa::{PrivateKey, PublicKey, RSAKeys, RSAMessage};
use num_bigint::BigUint;

const BIG_D: &str = "23007684629148646756906525643803260929425988568377712958719677673223911563826959118691305515545947474352193971142705653569147874890271512718698434860942788447256496947873441922015372039914996733878511428986914233147419420896905149158058280986136552454949851658551925020589452550856772097621467137806204489084992764957408463860629019690651589458069671938434887733747737091608095470705059258630275593771332476191727827922616354141874577867737212730336126003942742175181787144146775994305944116564893840272587156238366140638407355907757723904225492447027321140244397255708153961693763533951058901408298379634438092165577";
const BIG_N: &str = "27937902763966213919100781138903959700017271833030080021302465746057606898932736072696585268877221933141949822101856865048250990938186836872705242331144814543097174865274893762447237477039638891138192449484110140250437868231956252549070769768880099409581962728241623239287192383183223261397495810193248308174968618714138840723573109458396694728194068030986158066405257458242366433033601600488699894207235016550274240750117371497544517221155770036465087226878852084951029284929839124410295253804622459756950519030977873678384758784363213010850077730441582562331696947775369104249607475967178272053291116626854396933361";

fn small_keys() -> RSAKeys {
    RSAKeys::new(BigUint::from(17u32), BigUint::from(2753u32), BigUint::from(3233u32)).unwrap()
}

#[test]
fn encrypt_decrypt_string() {
    let keys = RSAKeys::new(
        BigUint::from_str("17").unwrap(),
        BigUint::from_str(BIG_D).unwrap(),
        BigUint::from_str(BIG_N).unwrap(),
    )
    .unwrap();
    let string = "RSA ENCRYPTION TEST";
    let rsa_message = RSAMessage::from_message(string.clone());
    let encrypted = rsa_message.encrypt(keys.public_key());
    let decrypted = encrypted.decrypt(keys.private_key());
    if let Some(Ok(message)) = decrypted.into_message() {
        assert_eq!(message, string);
    } else {
        panic!("The encrypted messages could not be decrypted");
    }
}

#[test]
fn encrypt_decrypt_number() {
    let keys = RSAKeys::new(
        BigUint::from_str("17").unwrap(),
        BigUint::from_str(BIG_D).unwrap(),
        BigUint::from_str(BIG_N).unwrap(),
    )
    .unwrap();

    let rsa_message = RSAMessage::Decrypted(BigUint::from(12u64));
    let encrypted = rsa_message.encrypt(keys.public_key());
    if let Decrypted(_) = &encrypted {
        panic!("Did not encrypt")
    }
    let decrypted = encrypted.decrypt(keys.private_key());
    assert_eq!(decrypted, RSAMessage::Decrypted(BigUint::from(12u64)));
}

#[test]
fn lifetime() {
    let public_key: PublicKey;
    let private_key: PrivateKey;
    let pair = RSAKeys::new(BigUint::from(5u32), BigUint::from(29u32), BigUint::from(35u32)).unwrap();
    {
        public_key = pair.public_key();
        private_key = pair.private_key();
    }
    println!("Public: {:?}, Private: {:?}", public_key, private_key);
}

#[test]
fn textbook_key_encrypts_65_to_2790() {
    let keys = small_keys();
    let encrypted = RSAMessage::Decrypted(BigUint::from(65u32)).encrypt(keys.public_key());
    assert_eq!(encrypted, RSAMessage::Encrypted(BigUint::from(2790u32)));
    let decrypted = encrypted.decrypt(keys.private_key());
    assert_eq!(decrypted, RSAMessage::Decrypted(BigUint::from(65u32)));
}

#[test]
fn every_plaintext_below_the_modulus_comes_back() {
    let keys = small_keys();
    for x in 0u32..3233 {
        let message = RSAMessage::Decrypted(BigUint::from(x));
        let back = message.encrypt(keys.public_key()).decrypt(keys.private_key());
        assert_eq!(back, RSAMessage::Decrypted(BigUint::from(x)));
    }
    let keys = RSAKeys::new(BigUint::from(5u32), BigUint::from(29u32), BigUint::from(35u32)).unwrap();
    for x in 0u32..35 {
        let message = RSAMessage::Decrypted(BigUint::from(x));
        let back = message.encrypt(keys.public_key()).decrypt(keys.private_key());
        assert_eq!(back, RSAMessage::Decrypted(BigUint::from(x)));
    }
}

#[test]
fn a_plaintext_at_or_above_the_modulus_is_lost() {
    let keys = small_keys();
    let message = RSAMessage::Decrypted(BigUint::from(3233u32 + 65));
    let back = message.encrypt(keys.public_key()).decrypt(keys.private_key());
    assert_eq!(back, RSAMessage::Decrypted(BigUint::from(65u32)));
}

#[test]
fn a_valid_triple_over_a_square_loses_a_plaintext() {
    // 121 is 11 squared; 3 * 37 is 1 modulo 110, so the probe 2 comes back
    let keys = RSAKeys::new(BigUint::from(3u32), BigUint::from(37u32), BigUint::from(121u32)).unwrap();
    assert!(keys.valid());
    let message = RSAMessage::Decrypted(BigUint::from(11u32));
    let back = message.encrypt(keys.public_key()).decrypt(keys.private_key());
    assert_eq!(back, RSAMessage::Decrypted(BigUint::from(0u32)));
}

#[test]
fn encrypting_a_ciphertext_changes_nothing() {
    let keys = small_keys();
    let message = RSAMessage::Encrypted(BigUint::from(1234u32));
    assert_eq!(message.encrypt(keys.public_key()), RSAMessage::Encrypted(BigUint::from(1234u32)));
    let message = RSAMessage::Decrypted(BigUint::from(1234u32));
    assert_eq!(message.decrypt(keys.private_key()), RSAMessage::Decrypted(BigUint::from(1234u32)));
}

#[test]
fn invalid_triples_are_refused() {
    assert!(RSAKeys::new(BigUint::from(3u32), BigUint::from(3u32), BigUint::from(35u32)).is_err());
    assert!(RSAKeys::new(BigUint::from(17u32), BigUint::from(2753u32), BigUint::from(0u32)).is_err());
    assert!(RSAKeys::new(BigUint::from(17u32), BigUint::from(2753u32), BigUint::from(1u32)).is_err());
    assert!(RSAKeys::new(BigUint::from(17u32), BigUint::from(2753u32), BigUint::from(2u32)).is_err());
    let unchecked = RSAKeys::new_unchecked(BigUint::from(3u32), BigUint::from(3u32), BigUint::from(35u32));
    assert!(!unchecked.valid());
    let unchecked = RSAKeys::new_unchecked(BigUint::from(3u32), BigUint::from(3u32), BigUint::from(0u32));
    assert!(!unchecked.valid());
    assert!(small_keys().valid());
}

#[test]
fn keys_from_strings() {
    let keys = RSAKeys::from_strings("17".to_string(), "2753".to_string(), "3233".to_string()).unwrap();
    assert!(keys.valid());
    assert_eq!(keys.public_key().key(), &BigUint::from(17u32));
    assert_eq!(keys.public_key().n_value(), &BigUint::from(3233u32));
    assert_eq!(keys.private_key().key(), &BigUint::from(2753u32));
    assert_eq!(keys.private_key().n_value(), &BigUint::from(3233u32));
    let unchecked = RSAKeys::from_strings("3".to_string(), "3".to_string(), "35".to_string()).unwrap();
    assert!(!unchecked.valid());
    assert!(RSAKeys::from_strings("x".to_string(), "2753".to_string(), "3233".to_string()).is_err());
    assert!(RSAKeys::from_strings("17".to_string(), "".to_string(), "3233".to_string()).is_err());
    assert!(RSAKeys::from_strings("17".to_string(), "2753".to_string(), "32 33".to_string()).is_err());
}

#[test]
fn cloned_keys_hold_the_same_numbers() {
    let keys = small_keys();
    let copy = keys.clone();
    assert_eq!(copy.public_key().to_string(), "3233 17");
    assert_eq!(copy.private_key().clone().key(), &BigUint::from(2753u32));
    assert_eq!(keys.public_key().clone().to_string(), "3233 17");
}

#[test]
fn public_key_text_is_modulus_then_exponent() {
    let key = small_keys().public_key();
    assert_eq!(key.to_string(), "3233 17");
    let key = PublicKey::new(BigUint::from(0u32), BigUint::from(0u32));
    assert_eq!(key.to_string(), "0 0");
}

#[test]
fn public_key_from_text() {
    let key = PublicKey::from_str("3233 17").unwrap();
    assert_eq!(key.n_value(), &BigUint::from(3233u32));
    assert_eq!(key.key(), &BigUint::from(17u32));
    let key = PublicKey::from_str("  \t3233 \u{2003} 17 and more\n").unwrap();
    assert_eq!(key.to_string(), "3233 17");
    let key = PublicKey::from_str(&small_keys().public_key().to_string()).unwrap();
    assert_eq!(key.to_string(), "3233 17");
    let key: PublicKey = "3233 17".parse().unwrap();
    assert_eq!(key.to_string(), "3233 17");
    assert!("3233".parse::<PublicKey>().is_err());
    assert!(PublicKey::from_str("").is_err());
    assert!(PublicKey::from_str("3233").is_err());
    assert!(PublicKey::from_str("3233 ").is_err());
    assert!(PublicKey::from_str("x 17").is_err());
    assert!(PublicKey::from_str("3233 y").is_err());
    assert!(PublicKey::from_str("(3233, 17)").is_err());
    assert!(PublicKey::from_str("3233,17").is_err());
}

#[test]
fn message_sizes() {
    assert_eq!(small_keys().public_key().max_message_size(), 1);
    let eight_bits = PublicKey::new(BigUint::from(3u32), BigUint::from(255u32));
    assert_eq!(eight_bits.max_message_size(), 0);
    let nine_bits = PublicKey::new(BigUint::from(3u32), BigUint::from(256u32));
    assert_eq!(nine_bits.max_message_size(), 1);
    let one = PublicKey::new(BigUint::from(3u32), BigUint::from(1u32));
    assert_eq!(one.max_message_size(), 0);
    let keys = RSAKeys::new(
        BigUint::from_str("17").unwrap(),
        BigUint::from_str(BIG_D).unwrap(),
        BigUint::from_str(BIG_N).unwrap(),
    )
    .unwrap();
    assert_eq!(keys.public_key().max_message_size(), 255);
    assert_eq!(keys.max_message_size(), 245);
    assert_eq!(keys.private_key().max_message_size(), 245);
    let bits_88 = RSAKeys::new_unchecked(
        BigUint::from(3u32),
        BigUint::from(3u32),
        BigUint::from(1u32) << 87usize,
    );
    assert_eq!(bits_88.max_message_size(), 0);
    assert_eq!(bits_88.private_key().max_message_size(), 0);
}

#[test]
fn messages_from_text() {
    assert_eq!(RSAMessage::from_message("A"), RSAMessage::Decrypted(BigUint::from(65u32)));
    assert_eq!(RSAMessage::from_message("AB"), RSAMessage::Decrypted(BigUint::from(16706u32)));
    assert_eq!(RSAMessage::from_message(""), RSAMessage::Decrypted(BigUint::from(0u32)));
    assert_eq!(
        RSAMessage::from_encrypted("2790"),
        Some(RSAMessage::Encrypted(BigUint::from(2790u32)))
    );
    assert_eq!(
        RSAMessage::from_encrypted("+27_90"),
        Some(RSAMessage::Encrypted(BigUint::from(2790u32)))
    );
    assert_eq!(RSAMessage::from_encrypted("2790\n"), None);
    assert_eq!(RSAMessage::from_encrypted("27a0"), None);
    assert_eq!(RSAMessage::from_encrypted(""), None);
}

#[test]
fn messages_into_text() {
    let message = RSAMessage::from_message("héllo");
    assert_eq!(message.to_string(), "héllo");
    assert_eq!(message.into_message().unwrap().unwrap(), "héllo");
    let not_utf8 = RSAMessage::Decrypted(BigUint::from(0xffu32));
    assert!(not_utf8.into_message().unwrap().is_err());
    let encrypted = RSAMessage::Encrypted(BigUint::from(2790u32));
    assert_eq!(encrypted.to_string(), "2790");
    assert!(encrypted.into_message().is_none());
    let zero = RSAMessage::Decrypted(BigUint::from(0u32));
    assert_eq!(zero.into_message().unwrap().unwrap(), "\0");
}

#[test]
fn message_bytes() {
    let message = RSAMessage::Decrypted(BigUint::from(0x010203u32));
    assert_eq!(message.bytes_be(), vec![1, 2, 3]);
    assert_eq!(message.bytes_le(), vec![3, 2, 1]);
    assert_eq!(message.backing(), &BigUint::from(0x010203u32));
    let message = RSAMessage::Encrypted(BigUint::from(0u32));
    assert_eq!(message.bytes_be(), vec![0]);
    assert_eq!(message.bytes_le(), vec![0]);
    let message = RSAMessage::Encrypted(BigUint::from(256u32));
    assert_eq!(message.bytes_be(), vec![1, 0]);
    assert_eq!(message.bytes_le(), vec![0, 1]);
    assert_eq!(message.backing(), &BigUint::from(256u32));
}
