//! The server's configuration: where the store keeps its files and how
//! they are named. An outside collaborator loads overrides from a
//! configuration file; the defaults here are the values used when it
//! provides none.

use vstd::prelude::*;

verus! {

/// The settings a running server is built from.
#[derive(Debug)]
pub struct ServerConfig {
    /// The address the server listens on.
    pub server_addr: String,
    /// Where the command-line history is kept.
    pub command_history: String,
    /// The directory holding the level directories.
    pub data_dir: String,
    /// The suffix of a data file name, dot included.
    pub data_file_suffix: String,
    /// The extension of a data file name, without the dot.
    pub data_file_extension: String,
    /// The directory holding the write-ahead log.
    pub wal_dir: String,
    /// The suffix of a log file name, dot included.
    pub log_file_suffix: String,
    /// The extension of a log file name, without the dot.
    pub log_file_extension: String,
    /// The level numbers laid out on disk.
    pub level_dirs: Vec<u8>,
}

impl Default for ServerConfig {
    /// The stock layout: logs under `log`, data under `data`, level
    /// directories 0 through 6, `.xlog` and `.data` files.
    fn default() -> (r: Self)
        ensures
            r.server_addr@ == "127.0.0.1:7890"@,
            r.command_history@ == "history.txt"@,
            r.data_dir@ == "data"@,
            r.data_file_suffix@ == ".data"@,
            r.data_file_extension@ == "data"@,
            r.wal_dir@ == "log"@,
            r.log_file_suffix@ == ".xlog"@,
            r.log_file_extension@ == "xlog"@,
            r.level_dirs@ == seq![0u8, 1u8, 2u8, 3u8, 4u8, 5u8, 6u8],
    {
        let mut level_dirs: Vec<u8> = Vec::new();
        level_dirs.push(0);
        level_dirs.push(1);
        level_dirs.push(2);
        level_dirs.push(3);
        level_dirs.push(4);
        level_dirs.push(5);
        level_dirs.push(6);
        proof {
            assert(level_dirs@ =~= seq![0u8, 1u8, 2u8, 3u8, 4u8, 5u8, 6u8]);
        }
        ServerConfig {
            server_addr: "127.0.0.1:7890".to_owned(),
            command_history: "history.txt".to_owned(),
            data_dir: "data".to_owned(),
            data_file_suffix: ".data".to_owned(),
            data_file_extension: "data".to_owned(),
            wal_dir: "log".to_owned(),
            log_file_suffix: ".xlog".to_owned(),
            log_file_extension: "xlog".to_owned(),
            level_dirs,
        }
    }
}

} // verus!
