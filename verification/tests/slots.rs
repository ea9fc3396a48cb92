use cluster_stall_repro::crc::crc16_xmodem;
use cluster_stall_repro::slot::{key_slot, SLOTS};

#[test]
fn checksum_of_known_messages() {
    assert_eq!(crc16_xmodem(b""), 0);
    assert_eq!(crc16_xmodem(b"123456789"), 0x31c3);
    assert_eq!(crc16_xmodem(b"foo"), 0xaf96);
    assert_eq!(crc16_xmodem(&[0]), 0);
    assert_eq!(crc16_xmodem(&[1]), 0x1021);
}

#[test]
fn checksum_is_linear() {
    let sum: Vec<u8> = b"hello".iter().zip(b"world").map(|(a, b)| a ^ b).collect();
    assert_eq!(crc16_xmodem(b"hello"), 0xc362);
    assert_eq!(crc16_xmodem(b"world"), 0x2363);
    assert_eq!(crc16_xmodem(&sum), 0xc362 ^ 0x2363);
}

#[test]
fn checked_message_has_checksum_zero() {
    assert_eq!(crc16_xmodem(b"123456789\x31\xc3"), 0);
    assert_eq!(crc16_xmodem(b"foo\xaf\x96"), 0);
    assert_ne!(crc16_xmodem(b"foo\x96\xaf"), 0);
}

#[test]
fn slots_of_plain_keys() {
    assert_eq!(key_slot(b""), 0);
    assert_eq!(key_slot(b"foo"), 12182);
    assert_eq!(key_slot(b"bar"), 5061);
    assert_eq!(key_slot(b"123456789"), 12739);
}

#[test]
fn tag_decides_the_slot() {
    assert_eq!(key_slot(b"user1000"), 3443);
    assert_eq!(key_slot(b"{user1000}.following"), 3443);
    assert_eq!(key_slot(b"{user1000}.followers"), 3443);
    assert_eq!(key_slot(b"foo{bar}{zap}"), 5061);
    assert_eq!(key_slot(b"foo{{bar}}zap"), 4015);
    assert_eq!(key_slot(b"{bar"), 4015);
}

#[test]
fn keys_without_a_tag_are_hashed_whole() {
    assert_eq!(key_slot(b"foo{}{bar}"), 8363);
    assert_eq!(key_slot(b"a{b"), 13340);
    assert_eq!(key_slot(b"}a{"), 11710);
}

#[test]
fn slots_are_in_range() {
    for i in 0..5000u32 {
        assert!(key_slot(&i.to_be_bytes()) < SLOTS);
    }
}
