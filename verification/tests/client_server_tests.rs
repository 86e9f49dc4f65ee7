//! The command grammar and the server's command execution.

use r_wisckey::client::{command_parser, Command};
use r_wisckey::server::client_command_process;
use r_wisckey::engines::lsm_log_engine::lsm_engine::LsmLogEngine;
use r_wisckey::Server;

#[test]
fn the_grammar_accepts_the_four_commands() {
    assert_eq!(command_parser("get key;"), Some(Command::Get("key".to_string())));
    assert_eq!(command_parser("delete key;"), Some(Command::Delete("key".to_string())));
    assert_eq!(
        command_parser("insert key value;"),
        Some(Command::Insert("key".to_string(), "value".to_string()))
    );
    assert_eq!(
        command_parser("update key value;"),
        Some(Command::Update("key".to_string(), "value".to_string()))
    );
}

#[test]
fn the_grammar_ignores_extra_whitespace_and_semicolons() {
    assert_eq!(command_parser("  get \t key ;\n"), Some(Command::Get("key".to_string())));
    assert_eq!(command_parser("get ke;y"), Some(Command::Get("key".to_string())));
}

#[test]
fn the_grammar_refuses_what_it_does_not_know() {
    assert_eq!(command_parser(""), None);
    assert_eq!(command_parser("get;"), None);
    assert_eq!(command_parser("put key value;"), None);
    assert_eq!(command_parser("get key extra;"), None);
    assert_eq!(command_parser("insert key;"), None);
}

#[test]
fn insert_then_get_through_the_server_layer() {
    let mut engine = LsmLogEngine::open(None, Vec::new()).unwrap();
    let r = client_command_process(&Command::Insert("k".to_string(), "v".to_string()), &mut engine);
    assert_eq!(r, "OK");
    let r = client_command_process(&Command::Get("k".to_string()), &mut engine);
    assert_eq!(r, "Some(\"v\")");
    let r = client_command_process(&Command::Get("missing".to_string()), &mut engine);
    assert_eq!(r, "None");
}

#[test]
fn insert_refuses_an_existing_key() {
    let mut engine = LsmLogEngine::open(None, Vec::new()).unwrap();
    client_command_process(&Command::Insert("k".to_string(), "v".to_string()), &mut engine);
    let r = client_command_process(&Command::Insert("k".to_string(), "w".to_string()), &mut engine);
    assert_eq!(r, "insert fail :key: [k] existed, consider update that");
    // the stored value did not change
    let r = client_command_process(&Command::Get("k".to_string()), &mut engine);
    assert_eq!(r, "Some(\"v\")");
}

#[test]
fn update_requires_the_key_to_exist() {
    let mut engine = LsmLogEngine::open(None, Vec::new()).unwrap();
    let r = client_command_process(&Command::Update("k".to_string(), "v".to_string()), &mut engine);
    assert_eq!(r, "key: [k] not exist!");
    client_command_process(&Command::Insert("k".to_string(), "v".to_string()), &mut engine);
    let r = client_command_process(&Command::Update("k".to_string(), "w".to_string()), &mut engine);
    assert_eq!(r, "OK");
    let r = client_command_process(&Command::Get("k".to_string()), &mut engine);
    assert_eq!(r, "Some(\"w\")");
}

#[test]
fn delete_of_a_missing_key_surfaces_not_exists_but_still_writes_the_tombstone() {
    let mut engine = LsmLogEngine::open(None, Vec::new()).unwrap();
    let wal_before = engine.wal_writer.file_bytes.len();
    let r = client_command_process(&Command::Delete("ghost".to_string()), &mut engine);
    assert_eq!(r, "key: [ghost] not exist!");
    // the tombstone went to the log all the same (engine-level policy)
    assert!(engine.wal_writer.file_bytes.len() > wal_before);
    let r = client_command_process(&Command::Get("ghost".to_string()), &mut engine);
    assert_eq!(r, "None");
}

#[test]
fn delete_answers_ok_and_hides_the_key() {
    let mut engine = LsmLogEngine::open(None, Vec::new()).unwrap();
    client_command_process(&Command::Insert("k".to_string(), "v".to_string()), &mut engine);
    let r = client_command_process(&Command::Delete("k".to_string()), &mut engine);
    assert_eq!(r, "OK");
    let r = client_command_process(&Command::Get("k".to_string()), &mut engine);
    assert_eq!(r, "None");
}

#[test]
fn a_server_wraps_an_engine() {
    let engine = LsmLogEngine::open(None, Vec::new()).unwrap();
    let server = Server::new(engine);
    let _ = server;
}
