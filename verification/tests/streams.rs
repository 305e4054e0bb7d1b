use hybrid_session::encryption::aes_session::aes_stream::{AESReader, AESWriter};
use hybrid_session::encryption::aes_session::{AESManager, KeySize};
use hybrid_session::encryption::rsa::{RSAKeys, RSAKeysGenerator, RSAReader, RSAWriter};
use num_bigint::BigUint;

const TEST_MESSAGE: &str = "Hello World";

fn small_keys() -> RSAKeys {
    RSAKeys::new(BigUint::from(17u32), BigUint::from(2753u32), BigUint::from(3233u32)).unwrap()
}

fn write_all(writer: &RSAWriter, mut buf: &[u8]) -> Vec<String> {
    let mut lines = Vec::new();
    while !buf.is_empty() {
        let (line, used) = writer.write(buf);
        assert!(used > 0);
        lines.push(line);
        buf = &buf[used..];
    }
    lines
}

#[test]
fn read_and_write_128() {
    let key = AESManager::new(KeySize::K128);
    let array: Vec<u8>;
    {
        let writer = AESWriter::new(&key);
        let (bytes, written) = writer.write(TEST_MESSAGE.as_bytes());
        assert_eq!(written, TEST_MESSAGE.len());
        array = bytes;
    }
    match String::from_utf8(array.clone()) {
        Ok(o) => {
            assert_ne!(o, TEST_MESSAGE)
        }
        Err(_) => {}
    }
    let mut reader = AESReader::new(&key);
    let mut block = [0u8; 16];
    block.copy_from_slice(&array[..16]);
    let string = reader.read(Some(block), 32);
    let length = string.len();
    let string = String::from_utf8(Vec::from(&string[..length])).unwrap();
    assert_eq!(string, TEST_MESSAGE);
}

#[test]
fn aes_writer_sends_whole_blocks() {
    let key = AESManager::new(KeySize::K256);
    let writer = AESWriter::new(&key);
    for len in [0usize, 1, 16, 17, 40] {
        let message = vec![5u8; len];
        let (bytes, written) = writer.write(&message);
        assert_eq!(written, len);
        assert_eq!(bytes.len(), (len + 15) / 16 * 16);
        let blocks = key.encrypt(&message);
        assert_eq!(bytes, blocks.concat());
    }
}

#[test]
fn aes_reader_stops_at_a_zero_byte_and_drops_it() {
    let key = AESManager::new(KeySize::K128);
    let writer = AESWriter::new(&key);
    let (bytes, _) = writer.write(b"Hi");
    let mut block = [0u8; 16];
    block.copy_from_slice(&bytes);
    let mut reader = AESReader::new(&key);
    assert_eq!(reader.read(Some(block), 1), b"H".to_vec());
    assert_eq!(reader.drain(10), b"i".to_vec());
    assert_eq!(reader.drain(10), Vec::<u8>::new());
    // 12 zero bytes are left; a new block queues behind them
    let (bytes, _) = writer.write(b"0123456789abcdef");
    block.copy_from_slice(&bytes);
    for _ in 0..12 {
        assert_eq!(reader.drain(10), Vec::<u8>::new());
    }
    assert_eq!(reader.read(Some(block), 4), b"0123".to_vec());
    assert_eq!(reader.drain(0), Vec::<u8>::new());
    assert_eq!(reader.drain(100), b"456789abcdef".to_vec());
    assert_eq!(reader.drain(100), Vec::<u8>::new());
}

#[test]
fn aes_reader_with_nothing_received_hands_on_nothing() {
    let key = AESManager::new(KeySize::K192);
    let writer = AESWriter::new(&key);
    let (bytes, _) = writer.write(b"abc");
    let mut block = [0u8; 16];
    block.copy_from_slice(&bytes);
    let mut reader = AESReader::new(&key);
    assert_eq!(reader.read(None, 32), Vec::<u8>::new());
    reader.accept_block(&block);
    assert_eq!(reader.read(None, 32), Vec::<u8>::new());
    assert_eq!(reader.drain(2), b"ab".to_vec());
    assert_eq!(reader.read(None, 32), Vec::<u8>::new());
    assert_eq!(reader.drain(2), b"c".to_vec());
}

#[test]
fn read_and_write_small() {
    let keys = RSAKeysGenerator::new(32).generate_keys().unwrap();
    let inner: Vec<String>;
    {
        let writer = RSAWriter::new(keys.public_key());
        inner = write_all(&writer, "Hello, World!".as_bytes());
    }
    {
        let mut reader = RSAReader::new(keys.private_key());
        assert!(reader.needs_input());
        let all = reader.read(&inner, usize::MAX).unwrap();
        let string = String::from_utf8(all).unwrap();
        assert_eq!(string, "Hello, World!");
    }
}

#[test]
fn rsa_writer_takes_what_the_key_has_room_for() {
    let keys = small_keys();
    let writer = RSAWriter::new(keys.public_key());
    assert_eq!(writer.write(b"A"), ("2790\n".to_string(), 1));
    assert_eq!(writer.write(b"AB"), ("2790\n".to_string(), 1));
    assert_eq!(writer.write(b""), ("0\n".to_string(), 0));
    assert_eq!(writer.write(b"\0"), ("0\n".to_string(), 1));
    let tiny = RSAKeys::new(BigUint::from(5u32), BigUint::from(29u32), BigUint::from(35u32)).unwrap();
    let writer = RSAWriter::new(tiny.public_key());
    assert_eq!(writer.write(b"A"), ("0\n".to_string(), 0));
    let wide = RSAKeysGenerator::new(64).generate_keys().unwrap();
    let writer = RSAWriter::new(wide.public_key());
    let (_, used) = writer.write(b"0123456789");
    assert_eq!(used, 7);
    let (_, used) = writer.write(b"0123");
    assert_eq!(used, 4);
}

#[test]
fn rsa_reader_queues_and_drains() {
    let keys = small_keys();
    let mut reader = RSAReader::new(keys.private_key());
    assert!(reader.needs_input());
    assert_eq!(reader.queued(), 0);
    assert!(reader.accept_line("2790\n").is_ok());
    assert!(!reader.needs_input());
    assert!(reader.accept_line("  2790  ").is_ok());
    assert_eq!(reader.queued(), 2);
    assert!(reader.accept_line("27x90").is_err());
    assert!(reader.accept_line("").is_err());
    assert_eq!(reader.queued(), 2);
    assert_eq!(reader.drain(1), b"A".to_vec());
    assert_eq!(reader.drain(0), Vec::<u8>::new());
    assert_eq!(reader.drain(5), b"A".to_vec());
    assert_eq!(reader.drain(5), Vec::<u8>::new());
}

#[test]
fn rsa_reader_reads_lines_in_order() {
    let keys = small_keys();
    let writer = RSAWriter::new(keys.public_key());
    let lines = write_all(&writer, b"abc");
    assert_eq!(lines.len(), 3);
    let mut reader = RSAReader::new(keys.private_key());
    assert_eq!(reader.read(&lines, 2).unwrap(), b"ab".to_vec());
    assert_eq!(reader.read(&Vec::new(), 2).unwrap(), b"c".to_vec());
    assert_eq!(reader.read(&Vec::new(), 2).unwrap(), Vec::<u8>::new());
    let mut reader = RSAReader::new(keys.private_key());
    let mut spoiled = lines.clone();
    spoiled[1] = "not a number\n".to_string();
    assert!(reader.read(&spoiled, 10).is_err());
    assert_eq!(reader.drain(10), b"a".to_vec());
}

#[test]
fn rsa_stream_loses_leading_zero_bytes() {
    let keys = RSAKeysGenerator::new(64).generate_keys().unwrap();
    let writer = RSAWriter::new(keys.public_key());
    let lines = write_all(&writer, b"\0\0ab");
    let mut reader = RSAReader::new(keys.private_key());
    assert_eq!(reader.read(&lines, 10).unwrap(), b"ab".to_vec());
}
