//! The in-memory table pair and the level directory.

use r_wisckey::common::fn_util::SequenceGen;
use r_wisckey::engines::lsm_log_engine::level::{
    level0_encode, read_level0, LevelDir, LEVEL_0_FILE_MAX_SIZE,
};
use r_wisckey::engines::lsm_log_engine::mem::{MemTableStatus, MemTables};
use r_wisckey::engines::lsm_log_engine::wal_log::{DataType, Key};
use r_wisckey::WiscError;

#[test]
fn lsm_log_test() {}

#[test]
fn lsm_log_engine_test() {}

#[test]
fn mem_test() {
    let a = MemTables::new();
    println!("{:?}", a);
}

#[test]
fn level_test() {
    let level = LevelDir::new(0);
    level.to_path("data");
}

#[test]
fn level_dir_path() {
    let level = LevelDir::new(3);
    assert_eq!(level.to_path("data"), "data/level_3");
}

#[test]
fn exactly_one_table_is_mutable() {
    let mut tables = MemTables::new();
    let mut g = SequenceGen::with_seed(1);
    assert_eq!(tables.mut_table().unwrap().status, MemTableStatus::Mut);
    assert_eq!(tables.imu_table().unwrap().status, MemTableStatus::Imu);
    let k = Key::new("a".to_string(), "1".to_string(), DataType::Put, &mut g);
    tables.add_record(&k);
    assert_eq!(tables.mut_table().unwrap().len(), 1);
    assert_eq!(tables.imu_table().unwrap().len(), 0);
    tables.exchange();
    // the roles traded; still exactly one of each
    assert_eq!(tables.mut_table().unwrap().len(), 0);
    assert_eq!(tables.imu_table().unwrap().len(), 1);
    assert_eq!(tables.mut_table().unwrap().status, MemTableStatus::Mut);
    assert_eq!(tables.imu_table().unwrap().status, MemTableStatus::Imu);
}

#[test]
fn drain_empties_the_immutable_table_in_sort_order() {
    let mut tables = MemTables::new();
    let mut g = SequenceGen::with_seed(10);
    for (k, v) in [("b", "2"), ("a", "1"), ("c", "3")].iter() {
        let key = Key::new(k.to_string(), v.to_string(), DataType::Put, &mut g);
        tables.add_record(&key);
    }
    tables.exchange();
    let drained = tables.drain_imu();
    assert_eq!(drained.len(), 3);
    // ascending by sort key "{key}-{sequence}"
    assert_eq!(drained[0].0, "a-11");
    assert_eq!(drained[1].0, "b-10");
    assert_eq!(drained[2].0, "c-12");
    assert_eq!(tables.imu_table().unwrap().len(), 0);
}

#[test]
fn an_insert_at_the_same_sort_key_replaces() {
    let mut tables = MemTables::new();
    let mut g1 = SequenceGen::with_seed(7);
    let mut g2 = SequenceGen::with_seed(7);
    let k1 = Key::new("k".to_string(), "old".to_string(), DataType::Put, &mut g1);
    let k2 = Key::new("k".to_string(), "new".to_string(), DataType::Put, &mut g2);
    tables.add_record(&k1);
    tables.add_record(&k2);
    assert_eq!(tables.mut_table().unwrap().len(), 1);
    let entries = tables.mut_table().unwrap().entries_vec();
    assert_eq!(entries[0].1.value, "new");
}

#[test]
fn a_level0_snapshot_reads_back_in_order() {
    let mut tables = MemTables::new();
    let mut g = SequenceGen::with_seed(20);
    for (k, v) in [("x", "24"), ("m", "13"), ("a", "1")].iter() {
        let key = Key::new(k.to_string(), v.to_string(), DataType::Put, &mut g);
        tables.add_record(&key);
    }
    tables.exchange();
    let snapshot = tables.drain_imu();
    let bytes = level0_encode(&snapshot);
    let back = read_level0(&bytes);
    assert_eq!(back.len(), 3);
    for (i, entry) in snapshot.iter().enumerate() {
        assert_eq!(back[i].key, entry.1.key);
        assert_eq!(back[i].value, entry.1.value);
        assert_eq!(back[i].sequence, entry.1.sequence);
        assert_eq!(back[i].get_sort_key(), entry.0);
    }
}

#[test]
fn the_level0_writer_policy() {
    let dir = LevelDir::new(0);
    let mut g = SequenceGen::with_seed(50);

    // no files: a fresh one, named by the counter
    let picked = dir.init_level_0_writer(&vec![], &mut g).unwrap();
    assert_eq!(picked, (50, true));

    // the last file still has room: append to it
    let picked = dir.init_level_0_writer(&vec![(40, 100)], &mut g).unwrap();
    assert_eq!(picked, (40, false));

    // the last file is sealed but the level has room: a fresh one
    let picked = dir
        .init_level_0_writer(&vec![(40, LEVEL_0_FILE_MAX_SIZE + 1)], &mut g)
        .unwrap();
    assert_eq!(picked, (51, true));

    // four sealed files: the caller must wait for major compaction
    let full = vec![
        (1, LEVEL_0_FILE_MAX_SIZE + 1),
        (2, LEVEL_0_FILE_MAX_SIZE + 1),
        (3, LEVEL_0_FILE_MAX_SIZE + 1),
        (4, LEVEL_0_FILE_MAX_SIZE + 1),
    ];
    let refused = dir.init_level_0_writer(&full, &mut g);
    assert!(matches!(refused, Err(WiscError::NotImplemented)));
}
