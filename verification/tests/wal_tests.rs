//! The write-ahead log: fragmentation across blocks, padding, rolling,
//! and recovery by the reader.

use r_wisckey::common::fn_util::{checksum, checksum_verify, SequenceGen};
use r_wisckey::engines::lsm_log_engine::wal_log::{
    decode_header, DataType, Key, LogRecordRead, LogRecordWrite, BLOCK_SIZE, RECORD_HEADER_SIZE,
};

#[test]
fn wal_log_test() {}

/// A key whose encoded payload has exactly `payload_len` bytes, using
/// a one-character user key.
fn key_with_payload_len(payload_len: usize, g: &mut SequenceGen) -> Key {
    // layout: 8 + key bytes (1) + 8 + 1 + 8 + value bytes
    assert!(payload_len >= 26);
    let value = "v".repeat(payload_len - 26);
    Key::new("a".to_string(), value, DataType::Put, g)
}

#[test]
fn a_small_record_is_framed_full() {
    let mut g = SequenceGen::with_seed(100);
    let mut w = LogRecordWrite::new(&mut g);
    let k = Key::new("b".to_string(), "bb".to_string(), DataType::Put, &mut g);
    let payload = k.encode();
    let rolled = w.add_records(&k, &mut g).unwrap();
    assert!(rolled.is_none());
    let file = &w.file_bytes;
    assert_eq!(file.len(), RECORD_HEADER_SIZE + payload.len());
    let h = decode_header(file, 0);
    assert_eq!(h._type, 1); // Full
    assert_eq!(h.value_len as usize, payload.len());
    assert!(checksum_verify(&file[RECORD_HEADER_SIZE..], h.checksum));
    assert_eq!(&file[RECORD_HEADER_SIZE..], payload.as_slice());
}

#[test]
fn an_exact_fit_is_framed_full_not_first() {
    let mut g = SequenceGen::with_seed(200);
    let mut w = LogRecordWrite::new(&mut g);
    // the payload exactly fills block space minus one header
    let k = key_with_payload_len(BLOCK_SIZE - RECORD_HEADER_SIZE, &mut g);
    w.add_records(&k, &mut g).unwrap();
    assert_eq!(w.file_bytes.len(), BLOCK_SIZE);
    let h = decode_header(&w.file_bytes, 0);
    assert_eq!(h._type, 1); // Full, not First
    assert_eq!(h.value_len as usize, BLOCK_SIZE - RECORD_HEADER_SIZE);
    assert_eq!(w.block_writer_rest_len, BLOCK_SIZE);
}

#[test]
fn header_only_room_emits_an_empty_sentinel() {
    let mut g = SequenceGen::with_seed(300);
    let mut w = LogRecordWrite::new(&mut g);
    // leave exactly one header of room in the first block
    let first = key_with_payload_len(BLOCK_SIZE - 2 * RECORD_HEADER_SIZE, &mut g);
    w.add_records(&first, &mut g).unwrap();
    assert_eq!(w.block_writer_rest_len, 13);
    let k = Key::new("c".to_string(), "cc".to_string(), DataType::Put, &mut g);
    w.add_records(&k, &mut g).unwrap();
    let file = &w.file_bytes;
    // the sentinel: an all-zero header closing the first block
    let sentinel_at = BLOCK_SIZE - 13;
    assert_eq!(&file[sentinel_at..BLOCK_SIZE], &[0u8; 13]);
    // the record itself starts the next block
    let h = decode_header(file, BLOCK_SIZE);
    assert_eq!(h._type, 1);
}

#[test]
fn a_large_record_fragments_into_first_and_last() {
    let mut g = SequenceGen::with_seed(400);
    let mut w = LogRecordWrite::new(&mut g);
    // a payload of 40 KiB must split across two blocks
    let total = 40 * 1024;
    let k = key_with_payload_len(total, &mut g);
    w.add_records(&k, &mut g).unwrap();
    let file = &w.file_bytes;
    let first_payload = BLOCK_SIZE - RECORD_HEADER_SIZE;
    let h1 = decode_header(file, 0);
    assert_eq!(h1._type, 2); // First
    assert_eq!(h1.value_len as usize, first_payload);
    assert!(checksum_verify(&file[RECORD_HEADER_SIZE..BLOCK_SIZE], h1.checksum));
    let h2 = decode_header(file, BLOCK_SIZE);
    assert_eq!(h2._type, 4); // Last
    assert_eq!(h2.value_len as usize, total - first_payload);
    let last_payload = &file[BLOCK_SIZE + RECORD_HEADER_SIZE..];
    assert_eq!(last_payload.len(), total - first_payload);
    assert!(checksum_verify(last_payload, h2.checksum));
}

#[test]
fn the_log_rolls_on_the_append_after_4mib() {
    let mut g = SequenceGen::with_seed(500);
    let mut w = LogRecordWrite::new(&mut g);
    let first_seg = w.write_log_path();
    let chunk = 256 * 1024;
    let mut rolls = 0;
    for _ in 0..17 {
        let k = key_with_payload_len(chunk, &mut g);
        if let Some(old) = w.add_records(&k, &mut g).unwrap() {
            rolls += 1;
            assert_eq!(old, first_seg);
            assert_ne!(w.write_log_path(), first_seg);
        }
    }
    // 16 chunks of 256 KiB pass 4 MiB; the 17th append rolls
    assert_eq!(rolls, 1);
}

#[test]
fn the_reader_recovers_what_the_writer_wrote() {
    let mut g = SequenceGen::with_seed(600);
    let mut w = LogRecordWrite::new(&mut g);
    let pairs = [("a", "1"), ("b", "2"), ("c", "3")];
    for (k, v) in pairs.iter() {
        let key = Key::new(k.to_string(), v.to_string(), DataType::Put, &mut g);
        w.add_records(&key, &mut g).unwrap();
    }
    // one record crossing a block boundary as well
    let big = key_with_payload_len(BLOCK_SIZE, &mut g);
    w.add_records(&big, &mut g).unwrap();

    let mut r = LogRecordRead::new(Some(w.file_bytes.clone()));
    r.read_log().unwrap();
    assert_eq!(r.recovery_data.len(), 4);
    for (i, (k, v)) in pairs.iter().enumerate() {
        assert_eq!(r.recovery_data[i].key, *k);
        assert_eq!(r.recovery_data[i].value, *v);
    }
    assert_eq!(r.recovery_data[3].key, "a");
    assert_eq!(r.recovery_data[3].value.len(), BLOCK_SIZE - 26);
}

#[test]
fn a_corrupt_record_is_skipped_and_the_rest_recovered() {
    let mut g = SequenceGen::with_seed(700);
    let mut w = LogRecordWrite::new(&mut g);
    for (k, v) in [("a", "1"), ("b", "2"), ("c", "3")].iter() {
        let key = Key::new(k.to_string(), v.to_string(), DataType::Put, &mut g);
        w.add_records(&key, &mut g).unwrap();
    }
    let mut bytes = w.file_bytes.clone();
    // flip one byte inside the payload of the middle (Full) record
    let first_len = decode_header(&bytes, 0).value_len as usize;
    let second_at = RECORD_HEADER_SIZE + first_len;
    bytes[second_at + RECORD_HEADER_SIZE] ^= 0xFF;

    let mut r = LogRecordRead::new(Some(bytes));
    r.read_log().unwrap();
    assert_eq!(r.recovery_data.len(), 2);
    assert_eq!(r.recovery_data[0].key, "a");
    assert_eq!(r.recovery_data[1].key, "c");
}

#[test]
fn wal_log_add_records_03_test() {
    let mut g = SequenceGen::with_seed(800);
    let mut log_record = LogRecordWrite::new(&mut g);
    let data = vec![
        ("a".to_string(), "bb".to_string()),
        ("a".to_string(), "bb".to_string()),
        ("a".to_string(), "bb".to_string()),
        ("b".to_string(), "bb".to_string()),
        ("c".to_string(), "cc".to_string()),
        ("d".to_string(), "dd".to_string()),
        ("e".to_string(), "ee".to_string()),
        ("f".to_string(), "ff".to_string()),
    ];
    data.iter().for_each(|(key, value)| {
        let key_test = Key::new(key.clone(), value.clone(), DataType::Put, &mut g);
        log_record.add_records(&key_test, &mut g).unwrap();
    });
}

#[test]
fn log_record_add_records_03_test() {
    let mut g = SequenceGen::with_seed(900);
    let mut log_record = LogRecordWrite::new(&mut g);
    let data = vec![
        ("a".to_string(), "bb".to_string()),
        ("b".to_string(), "bb".to_string()),
        ("c".to_string(), "cc".to_string()),
    ];
    data.iter().for_each(|(key, value)| {
        let key_test = Key::new(key.clone(), value.clone(), DataType::Put, &mut g);
        log_record.add_records(&key_test, &mut g).unwrap();
    });
}

#[test]
fn add_records_04_test() {
    let mut g = SequenceGen::with_seed(1000);
    let mut log_record = LogRecordWrite::new(&mut g);
    let data = vec![("\u{6d4b}\u{8bd5}".to_string(), "\u{6d4b}\u{8bd5}".to_string())];
    data.iter().for_each(|(key, value)| {
        let key_test = Key::new(key.clone(), value.clone(), DataType::Put, &mut g);
        log_record.add_records(&key_test, &mut g).unwrap();
    });
}

#[test]
fn wal_log_read_test() {
    let mut reader = LogRecordRead::new(None);
    reader.read_log().unwrap();
    let data = &reader.recovery_data;
    println!("{:?}", data);
}

#[test]
fn log_record_read_test() {
    let mut reader = LogRecordRead::new(None);
    reader.read_log().unwrap();
    let data = &reader.recovery_data;
    println!("{:?}", data);
}
