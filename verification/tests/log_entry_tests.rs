//! Tests of log entries and their bloom filters.

use statedb::log_entry::{Address, LogEntry};

fn from_hex(s: &str) -> Vec<u8> {
    fn digit(c: u8) -> u8 {
        match c {
            b'0'..=b'9' => c - b'0',
            b'a'..=b'f' => c - b'a' + 10,
            b'A'..=b'F' => c - b'A' + 10,
            _ => panic!("not a hex digit"),
        }
    }
    let bytes = s.as_bytes();
    assert!(bytes.len() % 2 == 0);
    let mut out = Vec::new();
    let mut i = 0;
    while i < bytes.len() {
        out.push(digit(bytes[i]) * 16 + digit(bytes[i + 1]));
        i += 2;
    }
    out
}

#[test]
fn test_empty_log_bloom() {
    let bloom = from_hex(
        "00000000000000000000000000000000000000000000000000000000000000000000000000000000000000000000000000000000000000000000000000000000000000000000000000000000000000000000000000000000000008800000000000000000000000000000000000000000000000000000000000000000000000000000000000000000000000000000000000000000000000000000000000000000000000000000000000000000000000000000000000000000000000000000000000000000000000000000800000000000000000000000000000000000000000000000000000000000000000000000000000000000000000000000000000000000",
    );
    let address = Address::from_bytes(from_hex("0f572e5295c57f15886f9b263e2f6d2d6c7b5ec6")).unwrap();
    let log = LogEntry::new(address, vec![], vec![]);
    assert_eq!(log.bloom().as_bytes(), &bloom);
}

#[test]
fn log_entry_accessors() {
    let address = Address::from_bytes(vec![7u8; 20]).unwrap();
    let topic = statedb::hash::H256::repeat_byte(9);
    let log = LogEntry::new(address, vec![topic], b"payload".to_vec());
    assert_eq!(log.address().as_bytes(), &vec![7u8; 20]);
    assert_eq!(log.topics().len(), 1);
    assert_eq!(log.topics()[0].to_vec(), vec![9u8; 32]);
    assert_eq!(log.data(), &b"payload".to_vec());
}

#[test]
fn bloom_depends_on_topics() {
    let address = Address::from_bytes(vec![7u8; 20]).unwrap();
    let plain = LogEntry::new(address.clone(), vec![], vec![]);
    let with_topic =
        LogEntry::new(address, vec![statedb::hash::H256::repeat_byte(1)], vec![]);
    // the topic's digest sets bits of its own
    assert_ne!(plain.bloom().as_bytes(), with_topic.bloom().as_bytes());
}
