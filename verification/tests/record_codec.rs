//! The record codec: internal keys, record headers, checksums and the
//! small formatting helpers.

use r_wisckey::common::fn_util::{
    checksum, checksum_verify, gen_sequence, get_file_path, get_log_path, i64_to_dec_string,
    str_eq, u64_to_dec_string, SequenceGen,
};
use r_wisckey::engines::lsm_log_engine::wal_log::{
    decode_header, encode_header, DataType, Key, RecordHeader, RECORD_HEADER_SIZE,
};
use r_wisckey::WiscError;

#[test]
fn log_record_test() {}

#[test]
fn base_log_test() {}

#[test]
fn sequence_counter_is_strictly_monotonic() {
    let mut g = SequenceGen::with_seed(41);
    let a = gen_sequence(&mut g);
    let b = gen_sequence(&mut g);
    let c = gen_sequence(&mut g);
    assert_eq!(a, 41);
    assert!(a < b && b < c);
}

#[test]
fn checksum_matches_the_crc32_check_value() {
    // the standard CRC-32 (IEEE) check value
    assert_eq!(checksum(b"123456789"), 0xCBF43926);
    assert_eq!(checksum(b""), 0);
}

#[test]
fn checksum_verify_accepts_and_rejects() {
    let crc = checksum(b"wisc");
    assert!(checksum_verify(b"wisc", crc));
    assert!(!checksum_verify(b"wisd", crc));
}

#[test]
fn decimal_rendering() {
    assert_eq!(u64_to_dec_string(0), "0");
    assert_eq!(u64_to_dec_string(7), "7");
    assert_eq!(u64_to_dec_string(12345), "12345");
    assert_eq!(u64_to_dec_string(u64::MAX), "18446744073709551615");
    assert_eq!(i64_to_dec_string(-7), "-7");
    assert_eq!(i64_to_dec_string(i64::MIN), "-9223372036854775808");
    assert_eq!(i64_to_dec_string(90), "90");
}

#[test]
fn file_paths_are_assembled_from_their_parts() {
    assert_eq!(get_file_path("data/level_0", 17, ".data"), "data/level_0/17.data");
    assert_eq!(get_log_path("log", 23, ".xlog"), "log/23.xlog");
}

#[test]
fn str_eq_compares_contents() {
    assert!(str_eq("abc", "abc"));
    assert!(!str_eq("abc", "abd"));
    assert!(!str_eq("abc", "ab"));
    assert!(str_eq("", ""));
}

#[test]
fn header_roundtrip() {
    let h = RecordHeader::new(0xDEADBEEF, 4, 513);
    let bytes = encode_header(&h);
    assert_eq!(bytes.len(), RECORD_HEADER_SIZE);
    let back = decode_header(&bytes, 0);
    assert_eq!(back.checksum, 0xDEADBEEF);
    assert_eq!(back._type, 4);
    assert_eq!(back.value_len, 513);
}

#[test]
fn key_encode_decode_roundtrip() {
    let mut g = SequenceGen::with_seed(1000);
    let k = Key::new("hello".to_string(), "world".to_string(), DataType::Put, &mut g);
    let bytes = k.encode();
    // layout: 8 (size) + 5 (key) + 8 (sequence) + 1 (kind) + 8 (size) + 5 (value)
    assert_eq!(bytes.len(), 35);
    let back = Key::decode(&bytes).unwrap();
    assert_eq!(back.key, "hello");
    assert_eq!(back.value, "world");
    assert_eq!(back.sequence, 1000);
    assert_eq!(back.data_type, 1);
    assert_eq!(back.internal_key_size, 14);
    assert_eq!(back.value_size, 5);
}

#[test]
fn key_roundtrip_with_multibyte_text() {
    let mut g = SequenceGen::with_seed(5);
    let k = Key::new("\u{6d4b}\u{8bd5}".to_string(), "\u{503c}".to_string(), DataType::Put, &mut g);
    let bytes = k.encode();
    let back = Key::decode(&bytes).unwrap();
    assert_eq!(back.key, "\u{6d4b}\u{8bd5}");
    assert_eq!(back.value, "\u{503c}");
}

#[test]
fn tombstone_keys_carry_the_delete_kind() {
    let mut g = SequenceGen::with_seed(9);
    let k = Key::new("gone".to_string(), String::new(), DataType::Delete, &mut g);
    assert_eq!(k.data_type, 0);
    let back = Key::decode(&k.encode()).unwrap();
    assert_eq!(back.data_type, 0);
    assert_eq!(back.value, "");
}

#[test]
fn sort_key_is_key_dash_sequence() {
    let mut g = SequenceGen::with_seed(77);
    let k = Key::new("k".to_string(), "v".to_string(), DataType::Put, &mut g);
    assert_eq!(k.get_sort_key(), "k-77");
}

#[test]
fn decode_rejects_truncated_buffers() {
    let r = Key::decode(&vec![1, 2, 3]);
    assert!(matches!(r, Err(WiscError::Truncated)));
    // a declared internal key size far past the buffer
    let mut bytes = vec![0u8; 30];
    bytes[0] = 200;
    assert!(matches!(Key::decode(&bytes), Err(WiscError::Truncated)));
}

#[test]
fn decode_rejects_bytes_that_are_not_utf8() {
    let mut g = SequenceGen::with_seed(3);
    let k = Key::new("ab".to_string(), "cd".to_string(), DataType::Put, &mut g);
    let mut bytes = k.encode();
    // stamp an invalid UTF-8 byte into the key text
    bytes[8] = 0xFF;
    assert!(matches!(Key::decode(&bytes), Err(WiscError::Encoding)));
}

#[test]
fn errors_describe_themselves() {
    assert_eq!(WiscError::KeyNotExist("k".to_string()).describe(), "key: [k] not exist!");
    assert_eq!(
        WiscError::KeyExist("k".to_string()).describe(),
        "insert fail :key: [k] existed, consider update that"
    );
    assert_eq!(WiscError::NotImplemented.describe(), "not implemented");
}
