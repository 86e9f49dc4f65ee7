//! The engine's operation contract: write path, read path, rolling,
//! compaction scheduling and recovery across a restart.

use r_wisckey::engines::lsm_log_engine::lsm_engine::{DiskOp, LsmLogEngine};
use r_wisckey::engines::Scans;
use r_wisckey::{KvsEngine, WiscError};

/// The engine as a fresh process over the given disk images.
fn reopen(wal: Option<Vec<u8>>, level0: Vec<(i64, Vec<u8>)>) -> LsmLogEngine {
    LsmLogEngine::open(wal, level0).unwrap()
}

/// What a restarted process would read from disk, given everything the
/// engine asked to be written so far.
fn surviving_images(engine: &LsmLogEngine) -> (Option<Vec<u8>>, Vec<(i64, Vec<u8>)>) {
    let wal = Some(engine.wal_writer.file_bytes.clone());
    let level0 = engine.level_0_files.clone();
    (wal, level0)
}

#[test]
fn test_01() {
    let mut engine = reopen(None, Vec::new());
    for _ in 0..283880 {
        engine.set("\u{6d4b}\u{8bd5}", "\u{6d4b}\u{8bd5}").unwrap();
        engine.take_pending();
    }
}

#[test]
fn set_then_get_returns_the_value() {
    let mut engine = reopen(None, Vec::new());
    engine.set("a", "1").unwrap();
    assert_eq!(engine.get("a").unwrap(), Some("1".to_string()));
    assert_eq!(engine.get("missing").unwrap(), None);
}

#[test]
fn set_get_survives_a_restart() {
    let mut engine = reopen(None, Vec::new());
    engine.set("a", "1").unwrap();
    assert_eq!(engine.get("a").unwrap(), Some("1".to_string()));
    // the process dies; a new one reads what was made durable
    let (wal, level0) = surviving_images(&engine);
    let engine2 = reopen(wal, level0);
    assert_eq!(engine2.get("a").unwrap(), Some("1".to_string()));
}

#[test]
fn a_later_set_shadows_an_earlier_one() {
    let mut engine = reopen(None, Vec::new());
    engine.set("k", "v1").unwrap();
    engine.set("k", "v2").unwrap();
    assert_eq!(engine.get("k").unwrap(), Some("v2".to_string()));
    let (wal, level0) = surviving_images(&engine);
    let engine2 = reopen(wal, level0);
    assert_eq!(engine2.get("k").unwrap(), Some("v2".to_string()));
}

#[test]
fn remove_hides_the_key() {
    let mut engine = reopen(None, Vec::new());
    engine.set("k", "v").unwrap();
    engine.remove("k").unwrap();
    assert_eq!(engine.get("k").unwrap(), None);
    let (wal, level0) = surviving_images(&engine);
    let engine2 = reopen(wal, level0);
    assert_eq!(engine2.get("k").unwrap(), None);
}

#[test]
fn a_plain_write_pends_exactly_its_wal_append() {
    let mut engine = reopen(None, Vec::new());
    engine.set("a", "1").unwrap();
    let ops = engine.take_pending();
    assert_eq!(ops.len(), 1);
    match &ops[0] {
        DiskOp::AppendWal { seg, bytes } => {
            assert_eq!(*seg, engine.wal_writer.block_writer_file);
            assert_eq!(*bytes, engine.wal_writer.file_bytes);
        },
        _ => panic!("a plain write pends only the WAL append"),
    }
    assert!(engine.take_pending().is_empty());
}

#[test]
fn a_roll_flushes_and_deletes_before_the_fresh_append() {
    let mut engine = reopen(None, Vec::new());
    let value = "v".repeat(64 * 1024);
    let mut rolled_batch: Option<Vec<DiskOp>> = None;
    for i in 0..70 {
        let key = format!("key{}", i);
        engine.set(key.as_str(), value.as_str()).unwrap();
        let ops = engine.take_pending();
        if ops.len() > 1 {
            assert!(rolled_batch.is_none());
            rolled_batch = Some(ops);
        }
    }
    // the rolled batch: level-0 flush, then the old segment's
    // deletion, then the first append to the fresh log file — no
    // instant leaves two log files on disk or an unflushed segment
    // deleted
    let ops = rolled_batch.unwrap();
    assert_eq!(ops.len(), 3);
    assert!(matches!(ops[0], DiskOp::AppendLevel0 { .. }));
    assert!(matches!(ops[1], DiskOp::DeleteWal { .. }));
    assert!(matches!(ops[2], DiskOp::AppendWal { .. }));
}

#[test]
fn crossing_4mib_rolls_once_and_flushes_to_one_level0_file() {
    let mut engine = reopen(None, Vec::new());
    let value = "v".repeat(14200);
    let mut deletes = 0;
    let mut delete_follows_flush = false;
    for i in 0..300 {
        let key = format!("key{}", i);
        engine.set(key.as_str(), value.as_str()).unwrap();
        let ops = engine.take_pending();
        let mut saw_flush = false;
        for op in ops.iter() {
            match op {
                DiskOp::AppendWal { .. } => {},
                DiskOp::AppendLevel0 { .. } => {
                    saw_flush = true;
                },
                DiskOp::DeleteWal { .. } => {
                    deletes += 1;
                    // the consumed segment goes only after the flush
                    delete_follows_flush = saw_flush;
                },
            }
        }
    }
    // exactly one rotation, and its segment was deleted after the
    // level-0 write that preserves its records
    assert_eq!(deletes, 1);
    assert!(delete_follows_flush);
    assert_eq!(engine.level_0_files.len(), 1);
    // the early keys moved to level 0 and are still visible
    assert_eq!(engine.get("key0").unwrap(), Some(value.clone()));
    assert_eq!(engine.get("key299").unwrap(), Some(value.clone()));
    // and a restarted process still sees them
    let (wal, level0) = surviving_images(&engine);
    let engine2 = reopen(wal, level0);
    assert_eq!(engine2.get("key0").unwrap(), Some(value.clone()));
    assert_eq!(engine2.get("key299").unwrap(), Some(value));
}

#[test]
fn recovery_skips_a_corrupted_record() {
    let mut engine = reopen(None, Vec::new());
    engine.set("a", "1").unwrap();
    engine.set("b", "2").unwrap();
    engine.set("c", "3").unwrap();
    let (wal, level0) = surviving_images(&engine);
    let mut bytes = wal.unwrap();
    // flip one byte in the payload of the second record
    let first_len = u64::from_le_bytes(bytes[5..13].try_into().unwrap()) as usize;
    let second_payload_at = 13 + first_len + 13;
    bytes[second_payload_at] ^= 0xFF;
    let engine2 = reopen(Some(bytes), level0);
    assert_eq!(engine2.get("a").unwrap(), Some("1".to_string()));
    assert_eq!(engine2.get("b").unwrap(), None);
    assert_eq!(engine2.get("c").unwrap(), Some("3".to_string()));
}

#[test]
fn scan_is_reserved() {
    let engine = reopen(None, Vec::new());
    let range = Scans { start: "a".to_string(), end: "z".to_string() };
    assert!(matches!(engine.scan(range), Err(WiscError::NotImplemented)));
}
